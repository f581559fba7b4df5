//! What a request asks for and how it is answered.

use vstd::prelude::*;
use vstd::string::*;

use crate::decode::{hotwords_in, parse_hotwords};
use crate::text::{chars_of, lowered, spells, texts, to_lower, trim, trimmed};

verus! {

/// The version that responses report.
pub const VERSION: &'static str = "0.1.1";

/// The revision of the decoder that responses report.
pub const DECODER_REVISION: &'static str = "sentencepiece-v2";

/// How many seconds of audio are decoded offline at a time.
pub const CHUNK_SECONDS: u64 = 10;

/// The greatest length of a model selector.
pub const SELECTOR_LENGTH: usize = 80;

// ---------------------------------------------------------------------------
// Fields
// ---------------------------------------------------------------------------

/// A character that a model selector may hold.
pub open spec fn selector_char(c: char) -> bool {
    ||| 'a' <= c <= 'z'
    ||| 'A' <= c <= 'Z'
    ||| '0' <= c <= '9'
    ||| c == '.'
    ||| c == '_'
    ||| c == '-'
}

/// A text that may be handed on as a model selector.
pub open spec fn is_selector(value: Seq<char>) -> bool {
    &&& 0 < value.len() <= SELECTOR_LENGTH
    &&& forall|i: int| 0 <= i < value.len() ==> selector_char(#[trigger] value[i])
}

/// Whether `value` may be handed on as a model selector: up to 80 ASCII
/// letters, digits, dots, underscores and hyphens, and at least one.
pub fn valid_worker_selector(value: &str) -> (valid: bool)
    ensures
        valid == is_selector(value@),
        valid <==> 1 <= value@.len() <= 80 && forall|i: int|
            0 <= i < value@.len() ==> {
                let code = #[trigger] value@[i] as int;
                ||| 97 <= code <= 122
                ||| 65 <= code <= 90
                ||| 48 <= code <= 57
                ||| value@[i] == '.'
                ||| value@[i] == '_'
                ||| value@[i] == '-'
            },
{
    let chars = chars_of(value);
    if chars.len() == 0 || chars.len() > SELECTOR_LENGTH {
        return false;
    }
    let mut i: usize = 0;
    while i < chars.len()
        invariant
            i <= chars.len(),
            chars@ == value@,
            forall|j: int| 0 <= j < i ==> selector_char(#[trigger] value@[j]),
        decreases chars.len() - i,
    {
        let c: char = chars[i];
        let allowed: bool = ('a' <= c && c <= 'z') || ('A' <= c && c <= 'Z') || ('0' <= c && c
            <= '9') || c == '.' || c == '_' || c == '-';
        if !allowed {
            assert(!selector_char(value@[i as int]));
            assert(value@[i as int] == c);
            return false;
        }
        i += 1;
    }
    assert forall|k: int| 0 <= k < value@.len() implies selector_char(#[trigger] value@[k]) by {}
    true
}

/// The names of the built-in diarization model.
pub open spec fn is_nemotron(value: Seq<char>) -> bool {
    let name = lowered(value);
    ||| name == "nemotron"@
    ||| name == "nemotron3"@
    ||| name == "nemotron-3-diarization-preview"@
}

/// Whether `value` names the built-in diarization model, in any case.
pub fn model_is_nemotron(value: &str) -> (b: bool)
    ensures
        b == is_nemotron(value@),
        b <==> lowered(value@) == "nemotron"@ || lowered(value@) == "nemotron3"@ || lowered(value@)
            == "nemotron-3-diarization-preview"@,
{
    let name = to_lower(&chars_of(value));
    spells(&name, "nemotron") || spells(&name, "nemotron3") || spells(
        &name,
        "nemotron-3-diarization-preview",
    )
}

/// A field value as it is compared: trimmed and in lower case.
pub open spec fn folded(value: Seq<char>) -> Seq<char> {
    lowered(trimmed(value))
}

/// The meaning of a truth value.
pub open spec fn bool_field(value: Seq<char>) -> Option<bool> {
    let word = folded(value);
    if word == "true"@ || word == "1"@ || word == "yes"@ || word == "on"@ {
        Some(true)
    } else if word == "false"@ || word == "0"@ || word == "no"@ || word == "off"@ {
        Some(false)
    } else {
        None
    }
}

/// The truth value that `value` spells, in any case and with whitespace around
/// it.
pub fn parse_bool_field(value: &str) -> (r: Option<bool>)
    ensures
        r == bool_field(value@),
        ({
            let word = lowered(trimmed(value@));
            let yes = word == "true"@ || word == "1"@ || word == "yes"@ || word == "on"@;
            let no = word == "false"@ || word == "0"@ || word == "no"@ || word == "off"@;
            &&& yes ==> r == Some(true)
            &&& !yes && no ==> r == Some(false)
            &&& !yes && !no ==> r is None
        }),
{
    let word = to_lower(trim(&chars_of(value)));
    if spells(&word, "true") || spells(&word, "1") || spells(&word, "yes") || spells(&word, "on") {
        Some(true)
    } else if spells(&word, "false") || spells(&word, "0") || spells(&word, "no") || spells(
        &word,
        "off",
    ) {
        Some(false)
    } else {
        None
    }
}

/// The meaning of a mode: whether it is the streaming one.
pub open spec fn mode_field(value: Seq<char>) -> Option<bool> {
    let word = folded(value);
    if word == "offline"@ {
        Some(false)
    } else if word == "streaming"@ || word == "stream"@ {
        Some(true)
    } else {
        None
    }
}

/// Whether `value` spells the streaming mode or the offline one.
pub fn parse_mode(value: &str) -> (r: Option<bool>)
    ensures
        r == mode_field(value@),
        ({
            let word = lowered(trimmed(value@));
            let streaming = word == "streaming"@ || word == "stream"@;
            &&& word == "offline"@ ==> r == Some(false)
            &&& word != "offline"@ && streaming ==> r == Some(true)
            &&& word != "offline"@ && !streaming ==> r is None
        }),
{
    let word = to_lower(trim(&chars_of(value)));
    if spells(&word, "offline") {
        Some(false)
    } else if spells(&word, "streaming") || spells(&word, "stream") {
        Some(true)
    } else {
        None
    }
}

/// More audio than two offline chunks hold.
pub open spec fn is_long(sample_count: int, sample_rate: int) -> bool {
    sample_rate > 0 && sample_count > sample_rate * CHUNK_SECONDS * 2
}

/// Whether streaming is chosen for a request that does not ask for a mode: it
/// is available, diarization is not asked for, and the audio is long.
pub fn should_auto_stream(
    sample_count: usize,
    sample_rate: u32,
    streaming_available: bool,
    mode_was_explicit: bool,
    diarization_requested: bool,
) -> (b: bool)
    ensures
        b == (streaming_available && !mode_was_explicit && !diarization_requested && is_long(
            sample_count as int,
            sample_rate as int,
        )),
        b <==> streaming_available && !mode_was_explicit && !diarization_requested && sample_rate > 0
            && sample_count > 20 * sample_rate,
{
    streaming_available && !mode_was_explicit && !diarization_requested && sample_rate > 0
        && sample_count as u64 > sample_rate as u64 * CHUNK_SECONDS * 2
}

// ---------------------------------------------------------------------------
// Rejections
// ---------------------------------------------------------------------------

/// Why a request is not served.
#[derive(Debug, Clone, Copy, PartialEq, Eq, Structural)]
pub enum Rejection {
    MissingFile,
    BadDiarizationField,
    BadModeField,
    DiarizationWithStreaming,
    DiarizationNotBuilt,
    NoDiarizationModel,
    StreamingNotBuilt,
    NoStreamingModel,
    DiarizationDisabled,
    BadSelector,
    NoDiarizer,
}

impl Rejection {
    /// The HTTP status.
    pub open spec fn code(self) -> u16 {
        match self {
            Rejection::DiarizationNotBuilt
            | Rejection::NoDiarizationModel
            | Rejection::StreamingNotBuilt
            | Rejection::NoStreamingModel
            | Rejection::DiarizationDisabled => 501,
            Rejection::NoDiarizer => 502,
            _ => 400,
        }
    }

    /// The HTTP status: 501 for what this server does not offer, 502 where no
    /// diarizer can be asked, and 400 for what the request lacks or misstates.
    pub fn status(&self) -> (code: u16)
        ensures
            code == self.code(),
    {
        match self {
            Rejection::DiarizationNotBuilt => 501,
            Rejection::NoDiarizationModel => 501,
            Rejection::StreamingNotBuilt => 501,
            Rejection::NoStreamingModel => 501,
            Rejection::DiarizationDisabled => 501,
            Rejection::NoDiarizer => 502,
            _ => 400,
        }
    }

    /// What the client is told.
    pub open spec fn words(self) -> Seq<char> {
        match self {
            Rejection::MissingFile => "missing multipart field `file`"@,
            Rejection::BadDiarizationField =>
                "`diarization` must be true/false, 1/0, yes/no, or on/off"@,
            Rejection::BadModeField => "`mode` must be offline or streaming"@,
            Rejection::DiarizationWithStreaming =>
                "`diarization=true` currently uses the offline Koochik segment transcriber; choose mode=offline"@,
            Rejection::DiarizationNotBuilt =>
                "diarization was requested but this binary was built without native-diarization"@,
            Rejection::NoDiarizationModel =>
                "diarization was requested but no native Nemotron model is configured; start with --diarizer-nemotron-model"@,
            Rejection::StreamingNotBuilt =>
                "streaming mode was requested but this binary was built without native-streaming"@,
            Rejection::NoStreamingModel =>
                "streaming mode was requested but no streaming model is configured; start with --streaming-model"@,
            Rejection::DiarizationDisabled =>
                "diarization is disabled; start with --diarizer-worker or --diarizer-nemotron-model"@,
            Rejection::BadSelector => "invalid diarization model selector"@,
            Rejection::NoDiarizer =>
                "diarization worker error: native Nemotron diarizer is not configured"@,
        }
    }

    /// What the client is told.
    pub fn message(&self) -> (text: &'static str)
        ensures
            text@ == self.words(),
    {
        match self {
            Rejection::MissingFile => "missing multipart field `file`",
            Rejection::BadDiarizationField =>
                "`diarization` must be true/false, 1/0, yes/no, or on/off",
            Rejection::BadModeField => "`mode` must be offline or streaming",
            Rejection::DiarizationWithStreaming =>
                "`diarization=true` currently uses the offline Koochik segment transcriber; choose mode=offline",
            Rejection::DiarizationNotBuilt =>
                "diarization was requested but this binary was built without native-diarization",
            Rejection::NoDiarizationModel =>
                "diarization was requested but no native Nemotron model is configured; start with --diarizer-nemotron-model",
            Rejection::StreamingNotBuilt =>
                "streaming mode was requested but this binary was built without native-streaming",
            Rejection::NoStreamingModel =>
                "streaming mode was requested but no streaming model is configured; start with --streaming-model",
            Rejection::DiarizationDisabled =>
                "diarization is disabled; start with --diarizer-worker or --diarizer-nemotron-model",
            Rejection::BadSelector => "invalid diarization model selector",
            Rejection::NoDiarizer =>
                "diarization worker error: native Nemotron diarizer is not configured",
        }
    }
}

// ---------------------------------------------------------------------------
// Transcription requests
// ---------------------------------------------------------------------------

/// A field of a transcription request.
#[derive(Debug, Clone, Copy, PartialEq, Eq, Structural)]
pub enum TranscribeField {
    File,
    Hotwords,
    Diarization,
    Mode,
    Ignored,
}

/// Which field a name stands for.
pub open spec fn transcribe_field_of(name: Option<Seq<char>>) -> TranscribeField {
    match name {
        Some(n) => if n == "file"@ {
            TranscribeField::File
        } else if n == "hotwords"@ {
            TranscribeField::Hotwords
        } else if n == "diarization"@ {
            TranscribeField::Diarization
        } else if n == "mode"@ {
            TranscribeField::Mode
        } else {
            TranscribeField::Ignored
        },
        None => TranscribeField::Ignored,
    }
}

/// The contents of an optional text.
pub open spec fn opt_text(value: Option<&str>) -> Option<Seq<char>> {
    match value {
        Some(text) => Some(text@),
        None => None,
    }
}

/// Which field of a transcription request a name stands for.
pub fn transcribe_field(name: Option<&str>) -> (field: TranscribeField)
    ensures
        field == transcribe_field_of(opt_text(name)),
        name is None ==> field is Ignored,
        name matches Some(n) ==> {
            &&& field is File <==> n@ == "file"@
            &&& field is Hotwords <==> n@ == "hotwords"@
            &&& field is Diarization <==> n@ == "diarization"@
            &&& field is Mode <==> n@ == "mode"@
        },
{
    proof {
        reveal_strlit("file");
        reveal_strlit("hotwords");
        reveal_strlit("diarization");
        reveal_strlit("mode");
        assert("file"@.len() == 4 && "hotwords"@.len() == 8 && "diarization"@.len() == 11);
        assert("mode"@.len() == 4 && "mode"@[0] == 'm' && "file"@[0] == 'f');
    }
    match name {
        Some(n) => {
            let chars = chars_of(n);
            if spells(&chars, "file") {
                TranscribeField::File
            } else if spells(&chars, "hotwords") {
                TranscribeField::Hotwords
            } else if spells(&chars, "diarization") {
                TranscribeField::Diarization
            } else if spells(&chars, "mode") {
                TranscribeField::Mode
            } else {
                TranscribeField::Ignored
            }
        },
        None => TranscribeField::Ignored,
    }
}

/// What has been read of a transcription request.
pub struct TranscribeForm {
    pub file: Option<Vec<u8>>,
    pub hotwords: Vec<String>,
    pub diarization: bool,
    pub streaming: bool,
    pub mode_was_explicit: bool,
}

impl TranscribeForm {
    /// A request of which nothing has been read: no file, no hotwords, no
    /// diarization, and the offline mode.
    pub fn new() -> (form: Self)
        ensures
            form.file is None,
            form.hotwords@.len() == 0,
            !form.diarization,
            !form.streaming,
            !form.mode_was_explicit,
    {
        TranscribeForm {
            file: None,
            hotwords: Vec::new(),
            diarization: false,
            streaming: false,
            mode_was_explicit: false,
        }
    }

    /// Takes the audio. The last file counts.
    pub fn take_file(&mut self, bytes: Vec<u8>)
        ensures
            final(self).file == Some(bytes),
            final(self).hotwords == old(self).hotwords,
            final(self).diarization == old(self).diarization,
            final(self).streaming == old(self).streaming,
            final(self).mode_was_explicit == old(self).mode_was_explicit,
    {
        self.file = Some(bytes);
    }

    /// Adds the hotwords of a field to those that were read before.
    pub fn add_hotwords(&mut self, text: &str)
        ensures
            texts(final(self).hotwords@) == texts(old(self).hotwords@) + hotwords_in(text@),
            final(self).file == old(self).file,
            final(self).diarization == old(self).diarization,
            final(self).streaming == old(self).streaming,
            final(self).mode_was_explicit == old(self).mode_was_explicit,
    {
        let words = parse_hotwords(text);
        push_all(&mut self.hotwords, &words);
    }

    /// Takes whether speakers are to be told apart.
    pub fn set_diarization(&mut self, value: &str) -> (r: Result<(), Rejection>)
        ensures
            match bool_field(value@) {
                Some(wanted) => r is Ok && final(self).diarization == wanted,
                None => r == Err::<(), Rejection>(Rejection::BadDiarizationField)
                    && final(self).diarization == old(self).diarization,
            },
            final(self).file == old(self).file,
            final(self).hotwords == old(self).hotwords,
            final(self).streaming == old(self).streaming,
            final(self).mode_was_explicit == old(self).mode_was_explicit,
    {
        match parse_bool_field(value) {
            Some(wanted) => {
                self.diarization = wanted;
                Ok(())
            },
            None => Err(Rejection::BadDiarizationField),
        }
    }

    /// Takes the mode.
    pub fn set_mode(&mut self, value: &str) -> (r: Result<(), Rejection>)
        ensures
            match mode_field(value@) {
                Some(streaming) => r is Ok && final(self).streaming == streaming,
                None => r == Err::<(), Rejection>(Rejection::BadModeField)
                    && final(self).streaming == old(self).streaming,
            },
            final(self).mode_was_explicit,
            final(self).file == old(self).file,
            final(self).hotwords == old(self).hotwords,
            final(self).diarization == old(self).diarization,
    {
        self.mode_was_explicit = true;
        match parse_mode(value) {
            Some(streaming) => {
                self.streaming = streaming;
                Ok(())
            },
            None => Err(Rejection::BadModeField),
        }
    }
}

/// Appends copies of the strings of `from`.
pub fn push_all(list: &mut Vec<String>, from: &Vec<String>)
    ensures
        texts(final(list)@) == texts(old(list)@) + texts(from@),
{
    let mut i: usize = 0;
    assert(texts(from@).take(0) == Seq::<Seq<char>>::empty());
    while i < from.len()
        invariant
            i <= from.len(),
            texts(list@) == texts(old(list)@) + texts(from@).take(i as int),
        decreases from.len() - i,
    {
        let ghost before = texts(list@);
        list.push(from[i].clone());
        assert(texts(list@) == before.push(from@[i as int]@));
        assert(texts(from@).take(i + 1) == texts(from@).take(i as int).push(from@[i as int]@));
        i += 1;
    }
    assert(texts(from@).take(from@.len() as int) == texts(from@));
}

/// What this server offers beside offline transcription.
#[derive(Debug, Clone, Copy, PartialEq, Eq, Structural)]
pub struct Offer {
    /// The program can tell speakers apart.
    pub diarization_built: bool,
    /// A diarization model is loaded.
    pub diarization_model: bool,
    /// The program can stream.
    pub streaming_built: bool,
    /// A streaming model is loaded.
    pub streaming_model: bool,
}

/// How a transcription request is served.
#[derive(Debug, Clone, Copy, PartialEq, Eq, Structural)]
pub enum Route {
    Diarized,
    Streaming,
    Offline,
}

/// The request is for streaming: it says so, or it leaves the mode open and
/// streaming is chosen for its audio.
pub open spec fn wants_streaming(form: TranscribeForm, offer: Offer, audio: Option<(usize, u32)>) -> bool {
    form.streaming || (match audio {
        Some((count, rate)) => offer.streaming_model && !form.mode_was_explicit && !form.diarization
            && is_long(count as int, rate as int),
        None => false,
    })
}

/// How a request is served, or why it is not.
pub open spec fn route_of(form: TranscribeForm, offer: Offer, audio: Option<(usize, u32)>) -> Result<
    Route,
    Rejection,
> {
    let streaming = wants_streaming(form, offer, audio);
    if form.file is None {
        Err(Rejection::MissingFile)
    } else if form.diarization && streaming {
        Err(Rejection::DiarizationWithStreaming)
    } else if form.diarization && !offer.diarization_built {
        Err(Rejection::DiarizationNotBuilt)
    } else if form.diarization && !offer.diarization_model {
        Err(Rejection::NoDiarizationModel)
    } else if streaming && !offer.streaming_built {
        Err(Rejection::StreamingNotBuilt)
    } else if streaming && !offer.streaming_model {
        Err(Rejection::NoStreamingModel)
    } else if form.diarization {
        Ok(Route::Diarized)
    } else if streaming {
        Ok(Route::Streaming)
    } else {
        Ok(Route::Offline)
    }
}

/// How a transcription request is served. `audio` is the number of samples and
/// the sample rate, where they are known.
pub fn choose_route(form: &TranscribeForm, offer: Offer, audio: Option<(usize, u32)>) -> (r: Result<
    Route,
    Rejection,
>)
    ensures
        r == route_of(*form, offer, audio),
        ({
            let long = audio matches Some((count, rate)) && rate > 0 && count > 20 * rate;
            let chosen = offer.streaming_model && !form.mode_was_explicit && !form.diarization && long;
            let streaming = form.streaming || chosen;
            let unserved = form.file is None || (form.diarization && streaming);
            &&& form.file is None ==> r == Err::<Route, Rejection>(Rejection::MissingFile)
            &&& form.file is Some && form.diarization && streaming ==> r == Err::<Route, Rejection>(
                Rejection::DiarizationWithStreaming,
            )
            &&& !unserved && form.diarization ==> r == (if !offer.diarization_built {
                Err::<Route, Rejection>(Rejection::DiarizationNotBuilt)
            } else if !offer.diarization_model {
                Err::<Route, Rejection>(Rejection::NoDiarizationModel)
            } else {
                Ok::<Route, Rejection>(Route::Diarized)
            })
            &&& !unserved && streaming ==> r == (if !offer.streaming_built {
                Err::<Route, Rejection>(Rejection::StreamingNotBuilt)
            } else if !offer.streaming_model {
                Err::<Route, Rejection>(Rejection::NoStreamingModel)
            } else {
                Ok::<Route, Rejection>(Route::Streaming)
            })
            &&& !unserved && !form.diarization && !streaming ==> r == Ok::<Route, Rejection>(
                Route::Offline,
            )
        }),
{
    let mut streaming: bool = form.streaming;
    if let Some((count, rate)) = audio {
        if should_auto_stream(
            count,
            rate,
            offer.streaming_model,
            form.mode_was_explicit,
            form.diarization,
        ) {
            streaming = true;
        }
    }
    if form.file.is_none() {
        return Err(Rejection::MissingFile);
    }
    if form.diarization && streaming {
        return Err(Rejection::DiarizationWithStreaming);
    }
    if form.diarization {
        if !offer.diarization_built {
            return Err(Rejection::DiarizationNotBuilt);
        }
        if !offer.diarization_model {
            return Err(Rejection::NoDiarizationModel);
        }
        return Ok(Route::Diarized);
    }
    if streaming {
        if !offer.streaming_built {
            return Err(Rejection::StreamingNotBuilt);
        }
        if !offer.streaming_model {
            return Err(Rejection::NoStreamingModel);
        }
        return Ok(Route::Streaming);
    }
    Ok(Route::Offline)
}

impl Route {
    /// The mode that the response reports.
    pub open spec fn mode_name(self) -> Seq<char> {
        match self {
            Route::Streaming => "streaming"@,
            _ => "offline"@,
        }
    }

    /// The mode that the response reports.
    pub fn mode(&self) -> (name: &'static str)
        ensures
            name@ == self.mode_name(),
            self is Streaming ==> name@ == "streaming"@,
            !(self is Streaming) ==> name@ == "offline"@,
    {
        match self {
            Route::Streaming => "streaming",
            _ => "offline",
        }
    }
}

/// The backend that the response reports: that of the streaming model for a
/// streamed request, and else that of the offline model.
pub fn response_backend<'a>(route: Route, offline: &'a str, streaming: Option<&'a str>) -> (name: &'a str)
    ensures
        name@ == (match route {
            Route::Streaming => match streaming {
                Some(backend) => backend@,
                None => "streaming"@,
            },
            _ => offline@,
        }),
{
    match route {
        Route::Streaming => match streaming {
            Some(backend) => backend,
            None => "streaming",
        },
        _ => offline,
    }
}

/// A span of a diarized transcript.
pub struct TranscriptSegment {
    pub start_ms: u64,
    pub end_ms: u64,
    pub speaker_id: u32,
    pub speaker: String,
    pub text: String,
    pub greedy: String,
}

/// The answer to a transcription request.
pub struct TranscribeResp {
    pub text: String,
    pub greedy: String,
    pub elapsed_ms: u64,
    pub backend: String,
    pub decoder: String,
    pub version: String,
    pub decoder_revision: String,
    pub mode: String,
    pub diarization: bool,
    pub segments: Option<Vec<TranscriptSegment>>,
}

/// The answer to a transcription request. It has spans exactly where speakers
/// were told apart.
pub fn transcribe_response(
    route: Route,
    text: String,
    greedy: String,
    used_hotbeam: bool,
    segments: Option<Vec<TranscriptSegment>>,
    elapsed_ms: u64,
    backend: &str,
) -> (resp: TranscribeResp)
    requires
        segments is Some <==> route == Route::Diarized,
    ensures
        resp.text == text,
        resp.greedy == greedy,
        resp.elapsed_ms == elapsed_ms,
        resp.backend@ == backend@,
        resp.decoder@ == if used_hotbeam {
            "hotbeam"@
        } else {
            "greedy"@
        },
        resp.version@ == VERSION@,
        resp.decoder_revision@ == DECODER_REVISION@,
        resp.mode@ == route.mode_name(),
        route is Streaming ==> resp.mode@ == "streaming"@,
        !(route is Streaming) ==> resp.mode@ == "offline"@,
        resp.diarization == (route == Route::Diarized),
        resp.segments == segments,
{
    TranscribeResp {
        text,
        greedy,
        elapsed_ms,
        backend: backend.to_owned(),
        decoder: (if used_hotbeam {
            "hotbeam"
        } else {
            "greedy"
        }).to_owned(),
        version: VERSION.to_owned(),
        decoder_revision: DECODER_REVISION.to_owned(),
        mode: route.mode().to_owned(),
        diarization: segments.is_some(),
        segments,
    }
}

/// The answer to a health request.
pub struct HealthResp {
    pub ok: bool,
    pub backend: String,
    pub version: String,
    pub decoder_revision: String,
}

/// The answer to a health request, where `backend` runs the offline model.
pub fn health(backend: &str) -> (resp: HealthResp)
    ensures
        resp.ok,
        resp.backend@ == backend@,
        resp.version@ == VERSION@,
        resp.decoder_revision@ == DECODER_REVISION@,
{
    HealthResp {
        ok: true,
        backend: backend.to_owned(),
        version: VERSION.to_owned(),
        decoder_revision: DECODER_REVISION.to_owned(),
    }
}

// ---------------------------------------------------------------------------
// Laws
// ---------------------------------------------------------------------------

/// A request for diarization and streaming at once is never served.
pub proof fn diarization_and_streaming_exclude_each_other(
    form: TranscribeForm,
    offer: Offer,
    audio: Option<(usize, u32)>,
)
    requires
        form.diarization,
        form.streaming,
    ensures
        route_of(form, offer, audio) is Err,
        form.file is Some ==> route_of(form, offer, audio) == Err::<Route, Rejection>(
            Rejection::DiarizationWithStreaming,
        ),
{
}

/// Asking for the offline mode keeps a request offline, however long its audio
/// is.
pub proof fn explicit_offline_is_kept(form: TranscribeForm, offer: Offer, audio: Option<(usize, u32)>)
    requires
        form.file is Some,
        form.mode_was_explicit,
        !form.streaming,
        !form.diarization,
    ensures
        route_of(form, offer, audio) == Ok::<Route, Rejection>(Route::Offline),
{
}

/// A request that leaves the mode open is streamed exactly where a streaming
/// model is loaded and the audio is long, and else served offline.
pub proof fn open_mode_follows_the_audio(form: TranscribeForm, offer: Offer, count: usize, rate: u32)
    requires
        form.file is Some,
        !form.mode_was_explicit,
        !form.streaming,
        !form.diarization,
        offer.streaming_model ==> offer.streaming_built,
    ensures
        route_of(form, offer, Some((count, rate))) == Ok::<Route, Rejection>(
            if offer.streaming_model && is_long(count as int, rate as int) {
                Route::Streaming
            } else {
                Route::Offline
            },
        ),
{
}

/// A request is served by what the server offers: diarized only with a
/// diarization model, streamed only with a streaming model, and either only
/// with a file.
pub proof fn served_by_what_is_offered(form: TranscribeForm, offer: Offer, audio: Option<(usize, u32)>)
    ensures
        match route_of(form, offer, audio) {
            Ok(Route::Diarized) => form.file is Some && form.diarization && offer.diarization_model,
            Ok(Route::Streaming) => form.file is Some && !form.diarization && offer.streaming_model,
            Ok(Route::Offline) => form.file is Some && !form.diarization && !form.streaming,
            Err(_) => true,
        },
{
}

/// A model selector is ASCII: it takes as many bytes as characters.
pub proof fn selectors_are_ascii(value: Seq<char>)
    requires
        is_selector(value),
    ensures
        vstd::utf8::is_ascii_chars(value),
        vstd::utf8::encode_utf8(value).len() == value.len(),
{
    assert forall|i: int| 0 <= i < value.len() implies '\0' <= #[trigger] value[i] <= '\u{7f}' by {
        assert(selector_char(value[i]));
    }
    vstd::utf8::is_ascii_chars_encode_utf8(value);
}

/// Whether audio is long is a matter of time and not of the sample rate: more
/// than 20 seconds, and at any multiple of the rate as many times the samples.
pub proof fn length_is_a_matter_of_time(count: int, rate: int, k: int)
    requires
        rate > 0,
        k > 0,
    ensures
        is_long(count, rate) <==> count > 20 * rate,
        is_long(k * count, k * rate) <==> is_long(count, rate),
{
    assert(k * rate > 0) by (nonlinear_arith)
        requires
            rate > 0,
            k > 0,
    ;
    assert(k * count > (k * rate) * 10 * 2 <==> count > rate * 10 * 2) by (nonlinear_arith)
        requires
            k > 0,
    ;
}

/// Field values are read in any case and with whitespace around them: what is
/// read of a value is what is read of its folded form.
pub proof fn fields_are_read_folded(value: Seq<char>)
    ensures
        folded(value) == lowered(trimmed(value)),
        bool_field(value) is Some ==> mode_field(value) is None,
{
    let word = lowered(trimmed(value));
    reveal_strlit("true");
    reveal_strlit("1");
    reveal_strlit("yes");
    reveal_strlit("on");
    reveal_strlit("false");
    reveal_strlit("0");
    reveal_strlit("no");
    reveal_strlit("off");
    reveal_strlit("offline");
    reveal_strlit("streaming");
    reveal_strlit("stream");
    assert("offline"@.len() == 7 && "streaming"@.len() == 9 && "stream"@.len() == 6);
}

/// The contents of an optional text are those of the text.
pub proof fn optional_contents_are_those_of_the_text(value: Option<&str>)
    ensures
        value matches Some(text) ==> opt_text(value) == Some(text@),
        value is None ==> opt_text(value) is None,
{
}

/// Every rejection is an answer to a bad request, an offer that is not made, or a
/// diarizer that is missing.
pub proof fn rejections_have_their_status(rejection: Rejection)
    ensures
        rejection.code() == 501 <==> rejection is DiarizationNotBuilt || rejection
            is NoDiarizationModel || rejection is StreamingNotBuilt || rejection is NoStreamingModel
            || rejection is DiarizationDisabled,
        rejection.code() == 502 <==> rejection is NoDiarizer,
        rejection.code() == 400 || rejection.code() == 501 || rejection.code() == 502,
{
}

} // verus!
