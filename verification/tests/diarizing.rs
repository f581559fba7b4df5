use shenava_asr_server::diarize::{
    audio_file_name, choose_payload, diarization_offered, diarize_field, diarize_response, native_diarize_bytes,
    plan_diarization, select_payload, sort_segments, worker_args, DiarizeField, DiarizeSegment,
    DiarizeWorkerResp, Engine,
};
use shenava_asr_server::nemotron::Segment;
use shenava_asr_server::request::Rejection;

fn segment(start_ms: u64, end_ms: u64, speaker_id: u32, speaker: &str) -> DiarizeSegment {
    DiarizeSegment { start_ms, end_ms, speaker_id, speaker: speaker.into() }
}

fn tuples(list: &[DiarizeSegment]) -> Vec<(u64, u64, u32, &str)> {
    list.iter()
        .map(|s| (s.start_ms, s.end_ms, s.speaker_id, s.speaker.as_str()))
        .collect()
}

#[test]
fn diarization_fields_are_exact() {
    assert_eq!(diarize_field(Some("file")), DiarizeField::File);
    assert_eq!(diarize_field(Some("model")), DiarizeField::Model);
    assert_eq!(diarize_field(Some("mode")), DiarizeField::Ignored);
    assert_eq!(diarize_field(None), DiarizeField::Ignored);
}

#[test]
fn diarization_needs_a_diarizer() {
    assert_eq!(diarization_offered(true, false), Ok(()));
    assert_eq!(diarization_offered(false, true), Ok(()));
    assert_eq!(diarization_offered(false, false), Err(Rejection::DiarizationDisabled));
}

#[test]
fn the_built_in_model_answers_under_its_names() {
    let plan = plan_diarization;
    let native = |model: &str| Ok((Engine::Native, model.to_string()));
    let worker = |model: &str| Ok((Engine::Worker, model.to_string()));
    assert_eq!(plan(None, None, true, true), native("nemotron3"));
    assert_eq!(plan(Some("Nemotron"), Some("sortformer"), true, true), native("Nemotron"));
    assert_eq!(plan(None, Some("sortformer"), true, true), worker("sortformer"));
    assert_eq!(plan(Some("nemotron3"), Some("sortformer"), false, true), worker("nemotron3"));
    assert_eq!(plan(Some("sortformer"), None, true, true), Err(Rejection::NoDiarizer));
    assert_eq!(plan(Some("../x"), Some("sortformer"), true, true), Err(Rejection::BadSelector));
    assert_eq!(plan(None, Some(""), true, true), Err(Rejection::BadSelector));
    assert_eq!(plan(Some("../x"), None, true, false), Err(Rejection::MissingFile));
    assert_eq!(plan(None, None, false, false), Err(Rejection::DiarizationDisabled));
}

#[test]
fn speakers_are_named_by_their_number() {
    let found = vec![
        Segment { start_ms: 0, end_ms: 20, speaker_id: 0 },
        Segment { start_ms: 10, end_ms: 30, speaker_id: 17 },
    ];
    let resp = native_diarize_bytes("cpu", &found);
    assert_eq!((resp.model.as_str(), resp.backend.as_str()), ("nemotron3", "cpu"));
    assert_eq!((resp.frame_ms, resp.max_speakers), (10, 8));
    assert_eq!(
        tuples(&resp.segments),
        vec![(0, 20, 0, "speaker_0"), (10, 30, 17, "speaker_17")]
    );
}

#[test]
fn answers_are_sorted_and_equal_spans_stay_as_they_stand() {
    let segments = vec![
        segment(20, 30, 0, "a"),
        segment(0, 30, 1, "b"),
        segment(0, 20, 2, "c"),
        segment(0, 20, 1, "d"),
        segment(0, 20, 2, "e"),
    ];
    let expected = vec![
        (0, 20, 1, "d"),
        (0, 20, 2, "c"),
        (0, 20, 2, "e"),
        (0, 30, 1, "b"),
        (20, 30, 0, "a"),
    ];
    let sorted = sort_segments(&segments);
    assert_eq!(tuples(&sorted), expected);
    assert_eq!(tuples(&sort_segments(&sorted)), expected);
    let resp = diarize_response(
        DiarizeWorkerResp {
            model: "sortformer".into(),
            backend: "cuda".into(),
            frame_ms: 80,
            max_speakers: 4,
            segments,
        },
        7,
    );
    assert_eq!((resp.model.as_str(), resp.backend.as_str()), ("sortformer", "cuda"));
    assert_eq!((resp.frame_ms, resp.max_speakers, resp.elapsed_ms), (80, 4, 7));
    assert_eq!(tuples(&resp.segments), expected);
}

#[test]
fn workers_are_started_with_named_arguments() {
    assert_eq!(
        worker_args("sortformer", "/tmp/x.wav", "auto", "low_latency"),
        vec![
            "--model",
            "sortformer",
            "--audio",
            "/tmp/x.wav",
            "--backend",
            "auto",
            "--preset",
            "low_latency"
        ]
    );
    assert_eq!(
        audio_file_name(12, 1_700_000_000_000_000_000_000, 3),
        "shenava-diar-12-1700000000000000000000-3.wav"
    );
}

#[test]
fn the_last_json_line_is_the_answer() {
    let text = |s: &str| select_payload(s);
    assert_eq!(text("log\n  {\"a\":1} \nnoise"), Some("{\"a\":1}".to_string()));
    assert_eq!(text("{\"a\":1}\n{\"b\":2}\r\n[I] done\n"), Some("{\"b\":2}".to_string()));
    assert_eq!(text("no { here"), None);
    assert_eq!(text(""), None);
}

#[test]
fn worker_response_contract_parses_segments() {
    let stdout = r#"{
                "model":"sortformer",
                "backend":"cpu",
                "frame_ms":80,
                "max_speakers":4,
                "segments":[{"start_ms":1040,"end_ms":2240,"speaker_id":1,"speaker":"speaker_1"}]
            }"#;
    let payload = select_payload(stdout).expect("worker response should be found");
    let response: serde_json::Value =
        serde_json::from_str(&payload).expect("worker response should parse");
    assert_eq!(response["model"], "sortformer");
    assert_eq!(response["frame_ms"], 80);
    assert_eq!(response["segments"][0]["speaker_id"], 1);
    assert_eq!(response["segments"][0]["end_ms"], 2240);
}

#[test]
fn answers_may_stand_on_several_lines() {
    let answer = "{\n  \"model\": \"sortformer\",\n  \"segments\": [\n    {\"start_ms\": 0},\n    {\"start_ms\": 9}\n  ]\n}";
    assert_eq!(select_payload(answer).as_deref(), Some(answer));
    let logged = format!("[I] start\n{{not json\r\n{answer}\n[I] done\n");
    assert_eq!(select_payload(&logged).as_deref(), Some(answer));
    let twice = format!("{answer}\n{{\"late\": 1}}\n");
    assert_eq!(select_payload(&twice).as_deref(), Some("{\"late\": 1}"));
    let returns = answer.replace('\n', "\r\n");
    assert_eq!(select_payload(&returns).as_deref(), Some(answer));
}

#[test]
fn without_an_object_the_last_opening_line_is_the_answer() {
    assert_eq!(select_payload("{\n\"a\":1\n"), Some("{".to_string()));
    assert_eq!(select_payload(" {a} \nx\n {b}\n]"), Some("{b}".to_string()));
    // An array is no object.
    assert_eq!(select_payload("[1]"), None);
}

#[test]
fn the_last_of_the_objects_found_is_chosen() {
    let stdout = "x\n {\n} \n{b}\n";
    assert_eq!(choose_payload(stdout, &vec![(1, 3)]), Some("{\n}".to_string()));
    assert_eq!(choose_payload(stdout, &vec![(0, 1), (1, 2)]), Some("{".to_string()));
    assert_eq!(choose_payload(stdout, &vec![]), Some("{b}".to_string()));
    assert_eq!(choose_payload("x", &vec![]), None);
}
