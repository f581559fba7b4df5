use shenava_asr_server::request::{
    choose_route, health, model_is_nemotron, parse_bool_field, parse_mode, push_all,
    response_backend, should_auto_stream, transcribe_field, transcribe_response,
    valid_worker_selector, Offer, Rejection, Route, TranscribeField, TranscribeForm,
    TranscriptSegment,
};

#[test]
fn boolean_request_field_accepts_common_multipart_values() {
    for value in ["true", "TRUE", "1", "yes", " on "] {
        assert_eq!(parse_bool_field(value), Some(true));
    }
    for value in ["false", "FALSE", "0", "no", " off "] {
        assert_eq!(parse_bool_field(value), Some(false));
    }
    assert_eq!(parse_bool_field("maybe"), None);
}

#[test]
fn mode_field_defaults_to_offline_semantics() {
    assert_eq!(parse_mode("offline"), Some(false));
    assert_eq!(parse_mode("streaming"), Some(true));
    assert_eq!(parse_mode("stream"), Some(true));
    assert_eq!(parse_mode("batch"), None);
}

#[test]
fn long_audio_auto_selects_streaming_only_when_mode_is_omitted() {
    assert!(should_auto_stream(16000 * 21, 16000, true, false, false));
    assert!(!should_auto_stream(16000 * 21, 16000, true, true, false));
    assert!(!should_auto_stream(16000 * 21, 16000, true, false, true));
    assert!(!should_auto_stream(16000 * 21, 16000, false, false, false));
    assert!(!should_auto_stream(16000 * 20, 16000, true, false, false));
}

#[test]
fn worker_selector_rejects_path_and_empty_values() {
    assert!(valid_worker_selector("sortformer"));
    assert!(valid_worker_selector("nemotron3"));
    assert!(!valid_worker_selector(""));
    assert!(!valid_worker_selector("../model"));
    assert!(!valid_worker_selector("nvidia/model"));
}

#[test]
fn selectors_have_up_to_eighty_plain_characters() {
    assert!(valid_worker_selector("Az09._-"));
    assert!(valid_worker_selector(&"x".repeat(80)));
    assert!(!valid_worker_selector(&"x".repeat(81)));
    assert!(!valid_worker_selector("a b"));
    assert!(!valid_worker_selector("é"));
    assert!(!valid_worker_selector("model\n"));
}

#[test]
fn the_built_in_model_has_three_names() {
    for name in ["nemotron", "nemotron3", "Nemotron-3-Diarization-Preview", "NEMOTRON3"] {
        assert!(model_is_nemotron(name));
    }
    for name in ["", "nemotron2", " nemotron", "sortformer"] {
        assert!(!model_is_nemotron(name));
    }
}

#[test]
fn field_values_are_folded() {
    assert_eq!(parse_bool_field("\tOn\n"), Some(true));
    assert_eq!(parse_bool_field(""), None);
    assert_eq!(parse_bool_field("t rue"), None);
    assert_eq!(parse_mode(" STREAMING "), Some(true));
    assert_eq!(parse_mode("Offline"), Some(false));
    assert_eq!(parse_mode(""), None);
}

#[test]
fn audio_without_a_rate_is_never_long() {
    assert!(!should_auto_stream(1, 0, true, false, false));
    assert!(should_auto_stream(21, 1, true, false, false));
    assert!(!should_auto_stream(20, 1, true, false, false));
    assert!(!should_auto_stream(usize::MAX, u32::MAX, false, false, false));
    assert!(should_auto_stream(usize::MAX, u32::MAX, true, false, false));
}

#[test]
fn field_names_are_exact() {
    assert_eq!(transcribe_field(Some("file")), TranscribeField::File);
    assert_eq!(transcribe_field(Some("hotwords")), TranscribeField::Hotwords);
    assert_eq!(transcribe_field(Some("diarization")), TranscribeField::Diarization);
    assert_eq!(transcribe_field(Some("mode")), TranscribeField::Mode);
    assert_eq!(transcribe_field(Some("File")), TranscribeField::Ignored);
    assert_eq!(transcribe_field(None), TranscribeField::Ignored);
}

#[test]
fn forms_collect_what_is_read() {
    let mut form = TranscribeForm::new();
    assert!(form.file.is_none() && form.hotwords.is_empty());
    assert!(!form.diarization && !form.streaming && !form.mode_was_explicit);
    form.add_hotwords("a\n# b\n");
    form.add_hotwords(" c ");
    assert_eq!(form.hotwords, vec!["a", "c"]);
    form.take_file(vec![1]);
    form.take_file(vec![2, 3]);
    assert_eq!(form.file, Some(vec![2, 3]));
    assert_eq!(form.set_diarization("yes"), Ok(()));
    assert!(form.diarization);
    assert_eq!(form.set_diarization("perhaps"), Err(Rejection::BadDiarizationField));
    assert_eq!(form.set_diarization("0"), Ok(()));
    assert!(!form.diarization);
    assert_eq!(form.set_mode("batch"), Err(Rejection::BadModeField));
    assert!(form.mode_was_explicit && !form.streaming);
    assert_eq!(form.set_mode("stream"), Ok(()));
    assert!(form.streaming);
    let mut list = vec!["x".to_string()];
    push_all(&mut list, &form.hotwords);
    assert_eq!(list, vec!["x", "a", "c"]);
}

fn form(diarization: bool, streaming: bool, explicit: bool) -> TranscribeForm {
    let mut form = TranscribeForm::new();
    form.take_file(Vec::new());
    form.diarization = diarization;
    form.streaming = streaming;
    form.mode_was_explicit = explicit;
    form
}

const EVERYTHING: Offer = Offer {
    diarization_built: true,
    diarization_model: true,
    streaming_built: true,
    streaming_model: true,
};

const NOTHING: Offer = Offer {
    diarization_built: false,
    diarization_model: false,
    streaming_built: false,
    streaming_model: false,
};

#[test]
fn requests_are_routed_by_what_they_ask_for() {
    let long = Some((16_000 * 21, 16_000));
    let short = Some((16_000, 16_000));
    let route = |f: &TranscribeForm, o: Offer, a| choose_route(f, o, a);
    assert_eq!(route(&form(false, false, false), EVERYTHING, short), Ok(Route::Offline));
    assert_eq!(route(&form(false, false, false), EVERYTHING, long), Ok(Route::Streaming));
    assert_eq!(route(&form(false, false, true), EVERYTHING, long), Ok(Route::Offline));
    assert_eq!(route(&form(false, false, false), NOTHING, long), Ok(Route::Offline));
    assert_eq!(route(&form(true, false, false), EVERYTHING, long), Ok(Route::Diarized));
    assert_eq!(route(&form(false, true, true), EVERYTHING, short), Ok(Route::Streaming));
    assert_eq!(route(&form(false, false, false), EVERYTHING, None), Ok(Route::Offline));
}

#[test]
fn requests_are_rejected_for_what_is_not_offered() {
    let no_model = Offer { diarization_built: true, streaming_built: true, ..NOTHING };
    let missing = TranscribeForm::new();
    assert_eq!(choose_route(&missing, EVERYTHING, None), Err(Rejection::MissingFile));
    let both = form(true, true, true);
    assert_eq!(
        choose_route(&both, EVERYTHING, None),
        Err(Rejection::DiarizationWithStreaming)
    );
    assert_eq!(choose_route(&both, NOTHING, None), Err(Rejection::DiarizationWithStreaming));
    let diarized = form(true, false, false);
    assert_eq!(choose_route(&diarized, NOTHING, None), Err(Rejection::DiarizationNotBuilt));
    assert_eq!(choose_route(&diarized, no_model, None), Err(Rejection::NoDiarizationModel));
    let streamed = form(false, true, true);
    assert_eq!(choose_route(&streamed, NOTHING, None), Err(Rejection::StreamingNotBuilt));
    assert_eq!(choose_route(&streamed, no_model, None), Err(Rejection::NoStreamingModel));
}

#[test]
fn rejections_tell_the_client_why() {
    let all = [
        (Rejection::MissingFile, 400, "missing multipart field `file`"),
        (
            Rejection::BadDiarizationField,
            400,
            "`diarization` must be true/false, 1/0, yes/no, or on/off",
        ),
        (Rejection::BadModeField, 400, "`mode` must be offline or streaming"),
        (
            Rejection::DiarizationWithStreaming,
            400,
            "`diarization=true` currently uses the offline Koochik segment transcriber; choose mode=offline",
        ),
        (
            Rejection::DiarizationNotBuilt,
            501,
            "diarization was requested but this binary was built without native-diarization",
        ),
        (
            Rejection::NoDiarizationModel,
            501,
            "diarization was requested but no native Nemotron model is configured; start with --diarizer-nemotron-model",
        ),
        (
            Rejection::StreamingNotBuilt,
            501,
            "streaming mode was requested but this binary was built without native-streaming",
        ),
        (
            Rejection::NoStreamingModel,
            501,
            "streaming mode was requested but no streaming model is configured; start with --streaming-model",
        ),
        (
            Rejection::DiarizationDisabled,
            501,
            "diarization is disabled; start with --diarizer-worker or --diarizer-nemotron-model",
        ),
        (Rejection::BadSelector, 400, "invalid diarization model selector"),
        (
            Rejection::NoDiarizer,
            502,
            "diarization worker error: native Nemotron diarizer is not configured",
        ),
    ];
    for (rejection, status, message) in all {
        assert_eq!(rejection.status(), status);
        assert_eq!(rejection.message(), message);
    }
}

#[test]
fn responses_report_how_they_came_about() {
    let resp = transcribe_response(
        Route::Streaming,
        "a".into(),
        "b".into(),
        true,
        None,
        42,
        response_backend(Route::Streaming, "cpu", Some("gpu-or-cpu")),
    );
    assert_eq!((resp.text.as_str(), resp.greedy.as_str(), resp.elapsed_ms), ("a", "b", 42));
    assert_eq!(resp.backend, "gpu-or-cpu");
    assert_eq!(resp.decoder, "hotbeam");
    assert_eq!(resp.version, "0.1.1");
    assert_eq!(resp.decoder_revision, "sentencepiece-v2");
    assert_eq!(resp.mode, "streaming");
    assert!(!resp.diarization && resp.segments.is_none());

    let segment = TranscriptSegment {
        start_ms: 0,
        end_ms: 10,
        speaker_id: 1,
        speaker: "speaker_1".into(),
        text: "a".into(),
        greedy: "a".into(),
    };
    let resp = transcribe_response(
        Route::Diarized,
        "a".into(),
        "a".into(),
        false,
        Some(vec![segment]),
        0,
        response_backend(Route::Diarized, "cpu", Some("gpu-or-cpu")),
    );
    assert_eq!(resp.backend, "cpu");
    assert_eq!(resp.decoder, "greedy");
    assert_eq!(resp.mode, "offline");
    assert!(resp.diarization);
    assert_eq!(resp.segments.unwrap().len(), 1);
    assert_eq!(response_backend(Route::Streaming, "cpu", None), "streaming");
    assert_eq!(Route::Offline.mode(), "offline");
}

#[test]
fn health_reports_the_backend() {
    let resp = health("coreml");
    assert!(resp.ok);
    assert_eq!(resp.backend, "coreml");
    assert_eq!(resp.version, "0.1.1");
    assert_eq!(resp.decoder_revision, "sentencepiece-v2");
}
