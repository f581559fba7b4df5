//! Diarization requests: who answers them, and how.

use vstd::prelude::*;
use vstd::string::*;

use crate::json::{is_object, json_document, parse, Json};
use crate::nemotron::{Segment, FRAME_MS, SPEAKERS};
use crate::order::{is_stable_order, key_below, order_by, precedes, stable_order, Key};
use crate::request::{
    is_nemotron, is_selector, model_is_nemotron, opt_text, valid_worker_selector, Rejection,
};
use crate::text::{
    chars_of, decimal, joined, lines, push_decimal, slices, spells, split_lines, string_of, texts,
    trim, trim_start, trimmed, trimmed_start,
};

verus! {

/// A span of time in which a named speaker is active.
pub struct DiarizeSegment {
    pub start_ms: u64,
    pub end_ms: u64,
    pub speaker_id: u32,
    pub speaker: String,
}

/// What a diarizer answers.
pub struct DiarizeWorkerResp {
    pub model: String,
    pub backend: String,
    pub frame_ms: u32,
    pub max_speakers: u32,
    pub segments: Vec<DiarizeSegment>,
}

/// The answer to a diarization request.
pub struct DiarizeResp {
    pub model: String,
    pub backend: String,
    pub frame_ms: u32,
    pub max_speakers: u32,
    pub segments: Vec<DiarizeSegment>,
    pub elapsed_ms: u64,
}

/// The same span of the same speaker.
pub open spec fn same_span(a: DiarizeSegment, b: DiarizeSegment) -> bool {
    &&& a.start_ms == b.start_ms
    &&& a.end_ms == b.end_ms
    &&& a.speaker_id == b.speaker_id
    &&& a.speaker@ == b.speaker@
}

/// A span is sorted by start, end and speaker number.
pub open spec fn span_key(segment: DiarizeSegment) -> Key {
    Key {
        first: segment.start_ms,
        second: segment.end_ms,
        third: segment.speaker_id as u64,
    }
}

/// The sort keys of a list of spans.
pub open spec fn span_keys(segments: Seq<DiarizeSegment>) -> Seq<Key> {
    Seq::new(segments.len(), |i: int| span_key(segments[i]))
}

// ---------------------------------------------------------------------------
// Requests
// ---------------------------------------------------------------------------

/// A field of a diarization request.
#[derive(Debug, Clone, Copy, PartialEq, Eq, Structural)]
pub enum DiarizeField {
    File,
    Model,
    Ignored,
}

/// Which field a name stands for.
pub open spec fn diarize_field_of(name: Option<Seq<char>>) -> DiarizeField {
    match name {
        Some(n) => if n == "file"@ {
            DiarizeField::File
        } else if n == "model"@ {
            DiarizeField::Model
        } else {
            DiarizeField::Ignored
        },
        None => DiarizeField::Ignored,
    }
}

/// Which field of a diarization request a name stands for.
pub fn diarize_field(name: Option<&str>) -> (field: DiarizeField)
    ensures
        field == diarize_field_of(opt_text(name)),
        name is None ==> field is Ignored,
        name matches Some(n) ==> {
            &&& field is File <==> n@ == "file"@
            &&& field is Model <==> n@ == "model"@
        },
{
    proof {
        reveal_strlit("file");
        reveal_strlit("model");
        assert("file"@.len() == 4 && "model"@.len() == 5);
    }
    match name {
        Some(n) => {
            let chars = chars_of(n);
            if spells(&chars, "file") {
                DiarizeField::File
            } else if spells(&chars, "model") {
                DiarizeField::Model
            } else {
                DiarizeField::Ignored
            }
        },
        None => DiarizeField::Ignored,
    }
}

/// Who answers a diarization request.
#[derive(Debug, Clone, Copy, PartialEq, Eq, Structural)]
pub enum Engine {
    /// The model that is loaded.
    Native,
    /// The worker program.
    Worker,
}

/// Whether diarization is offered at all: there is a worker or a loaded model.
pub fn diarization_offered(worker: bool, native: bool) -> (r: Result<(), Rejection>)
    ensures
        r == if worker || native {
            Ok::<(), Rejection>(())
        } else {
            Err::<(), Rejection>(Rejection::DiarizationDisabled)
        },
{
    if worker || native {
        Ok(())
    } else {
        Err(Rejection::DiarizationDisabled)
    }
}

/// The model that is asked: the requested one, or else the worker's own, or
/// else the built-in one.
pub open spec fn asked_model(requested: Option<Seq<char>>, worker_model: Option<Seq<char>>) -> Seq<char> {
    match requested {
        Some(model) => model,
        None => match worker_model {
            Some(model) => model,
            None => "nemotron3"@,
        },
    }
}

/// Who answers a request, or why nobody does.
pub open spec fn engine_of(
    requested: Option<Seq<char>>,
    worker_model: Option<Seq<char>>,
    native: bool,
    has_file: bool,
) -> Result<Engine, Rejection> {
    let model = asked_model(requested, worker_model);
    if worker_model is None && !native {
        Err(Rejection::DiarizationDisabled)
    } else if !has_file {
        Err(Rejection::MissingFile)
    } else if !is_selector(model) {
        Err(Rejection::BadSelector)
    } else if is_nemotron(model) && native {
        Ok(Engine::Native)
    } else if worker_model is Some {
        Ok(Engine::Worker)
    } else {
        Err(Rejection::NoDiarizer)
    }
}

/// Who answers a diarization request, and for which model. `worker_model` is
/// the model that the worker program uses by default, where there is one;
/// `native` tells whether the built-in model is loaded.
pub fn plan_diarization(
    requested: Option<&str>,
    worker_model: Option<&str>,
    native: bool,
    has_file: bool,
) -> (r: Result<(Engine, String), Rejection>)
    ensures
        match engine_of(opt_text(requested), opt_text(worker_model), native, has_file) {
            Ok(engine) => r matches Ok((e, model)) && e == engine && model@ == asked_model(
                opt_text(requested),
                opt_text(worker_model),
            ),
            Err(reason) => r matches Err(e) && e == reason,
        },
        ({
            let model = match (requested, worker_model) {
                (Some(m), _) => m@,
                (None, Some(m)) => m@,
                (None, None) => "nemotron3"@,
            };
            let offered = worker_model is Some || native;
            let fits = offered && has_file && is_selector(model);
            let built_in = is_nemotron(model) && native;
            &&& !offered ==> (r matches Err(e) && e == Rejection::DiarizationDisabled)
            &&& offered && !has_file ==> (r matches Err(e) && e == Rejection::MissingFile)
            &&& offered && has_file && !is_selector(model) ==> (r matches Err(e) && e
                == Rejection::BadSelector)
            &&& fits && built_in ==> (r matches Ok((e, m)) && e == Engine::Native && m@ == model)
            &&& fits && !built_in && worker_model is Some ==> (r matches Ok((e, m)) && e
                == Engine::Worker && m@ == model)
            &&& fits && !built_in && worker_model is None ==> (r matches Err(e) && e
                == Rejection::NoDiarizer)
        }),
{
    if worker_model.is_none() && !native {
        return Err(Rejection::DiarizationDisabled);
    }
    if !has_file {
        return Err(Rejection::MissingFile);
    }
    let model: &str = match requested {
        Some(model) => model,
        None => match worker_model {
            Some(model) => model,
            None => "nemotron3",
        },
    };
    if !valid_worker_selector(model) {
        return Err(Rejection::BadSelector);
    }
    if model_is_nemotron(model) && native {
        return Ok((Engine::Native, model.to_owned()));
    }
    if worker_model.is_some() {
        return Ok((Engine::Worker, model.to_owned()));
    }
    Err(Rejection::NoDiarizer)
}

// ---------------------------------------------------------------------------
// Answers
// ---------------------------------------------------------------------------

/// What a speaker is called.
pub open spec fn speaker_name(id: u32) -> Seq<char> {
    "speaker_"@ + decimal(id as nat)
}

/// The answer of the built-in model, which runs on `backend` and has found
/// `segments`. Speakers are named by their number.
pub fn native_diarize_bytes(backend: &str, segments: &Vec<Segment>) -> (resp: DiarizeWorkerResp)
    ensures
        resp.model@ == "nemotron3"@,
        resp.backend@ == backend@,
        resp.frame_ms == FRAME_MS,
        resp.max_speakers == SPEAKERS,
        resp.frame_ms == 10,
        resp.max_speakers == 8,
        resp.segments@.len() == segments@.len(),
        forall|i: int|
            0 <= i < segments@.len() ==> {
                let found = segments@[i];
                let named = #[trigger] resp.segments@[i];
                &&& named.start_ms == found.start_ms
                &&& named.end_ms == found.end_ms
                &&& named.speaker_id == found.speaker_id
                &&& named.speaker@ == speaker_name(found.speaker_id)
                &&& named.speaker@ == "speaker_"@ + decimal(found.speaker_id as nat)
            },
{
    let mut named: Vec<DiarizeSegment> = Vec::new();
    let mut i: usize = 0;
    while i < segments.len()
        invariant
            i <= segments.len(),
            named@.len() == i,
            forall|j: int|
                0 <= j < i ==> {
                    let found = segments@[j];
                    let name = #[trigger] named@[j];
                    &&& name.start_ms == found.start_ms
                    &&& name.end_ms == found.end_ms
                    &&& name.speaker_id == found.speaker_id
                    &&& name.speaker@ == speaker_name(found.speaker_id)
                },
        decreases segments.len() - i,
    {
        let found: Segment = segments[i];
        let mut speaker: String = "speaker_".to_owned();
        push_decimal(&mut speaker, found.speaker_id as u128);
        named.push(
            DiarizeSegment {
                start_ms: found.start_ms,
                end_ms: found.end_ms,
                speaker_id: found.speaker_id,
                speaker,
            },
        );
        i += 1;
    }
    DiarizeWorkerResp {
        model: "nemotron3".to_owned(),
        backend: backend.to_owned(),
        frame_ms: 10,
        max_speakers: 8,
        segments: named,
    }
}

/// The spans in order of start, end and speaker number; equal ones as they
/// stand.
pub fn sort_segments(segments: &Vec<DiarizeSegment>) -> (out: Vec<DiarizeSegment>)
    ensures
        out@.len() == segments@.len(),
        is_stable_order(span_keys(segments@), stable_order(span_keys(segments@))),
        forall|k: int|
            0 <= k < out@.len() ==> same_span(
                #[trigger] out@[k],
                segments@[stable_order(span_keys(segments@))[k] as int],
            ),
        forall|i: int, j: int|
            0 <= i < j < out@.len() ==> !key_below(
                span_key(#[trigger] out@[j]),
                span_key(#[trigger] out@[i]),
            ),
        forall|k: int|
            0 <= k < out@.len() ==> {
                let (a, b) = (
                    #[trigger] out@[k],
                    segments@[stable_order(span_keys(segments@))[k] as int],
                );
                &&& a.start_ms == b.start_ms
                &&& a.end_ms == b.end_ms
                &&& a.speaker_id == b.speaker_id
                &&& a.speaker@ == b.speaker@
            },
        forall|i: int, j: int|
            0 <= i < j < out@.len() ==> {
                let (a, b) = (#[trigger] out@[i], #[trigger] out@[j]);
                &&& a.start_ms <= b.start_ms
                &&& a.start_ms == b.start_ms ==> a.end_ms <= b.end_ms
                &&& a.start_ms == b.start_ms && a.end_ms == b.end_ms ==> a.speaker_id
                    <= b.speaker_id
            },
{
    let mut keys: Vec<Key> = Vec::new();
    let mut i: usize = 0;
    while i < segments.len()
        invariant
            i <= segments.len(),
            keys@ == span_keys(segments@).take(i as int),
        decreases segments.len() - i,
    {
        keys.push(
            Key {
                first: segments[i].start_ms,
                second: segments[i].end_ms,
                third: segments[i].speaker_id as u64,
            },
        );
        assert(keys@ == span_keys(segments@).take(i + 1));
        i += 1;
    }
    assert(keys@ == span_keys(segments@));
    let order = order_by(&keys);
    let mut out: Vec<DiarizeSegment> = Vec::new();
    let mut p: usize = 0;
    while p < order.len()
        invariant
            p <= order.len(),
            order@.len() == segments@.len(),
            forall|q: int| 0 <= q < order@.len() ==> #[trigger] order@[q] < segments@.len(),
            out@.len() == p,
            forall|q: int| 0 <= q < p ==> same_span(#[trigger] out@[q], segments@[order@[q] as int]),
        decreases order.len() - p,
    {
        let segment = &segments[order[p]];
        out.push(
            DiarizeSegment {
                start_ms: segment.start_ms,
                end_ms: segment.end_ms,
                speaker_id: segment.speaker_id,
                speaker: segment.speaker.clone(),
            },
        );
        p += 1;
    }
    assert forall|i: int, j: int| 0 <= i < j < out@.len() implies !key_below(
        span_key(#[trigger] out@[j]),
        span_key(#[trigger] out@[i]),
    ) by {
        assert(precedes(keys@, order@[i] as int, order@[j] as int));
        assert(span_key(out@[i]) == keys@[order@[i] as int]);
        assert(span_key(out@[j]) == keys@[order@[j] as int]);
    }
    out
}

/// The answer to a diarization request: what the diarizer answered, with its
/// spans in order.
pub fn diarize_response(worker: DiarizeWorkerResp, elapsed_ms: u64) -> (resp: DiarizeResp)
    ensures
        resp.model == worker.model,
        resp.backend == worker.backend,
        resp.frame_ms == worker.frame_ms,
        resp.max_speakers == worker.max_speakers,
        resp.elapsed_ms == elapsed_ms,
        resp.segments@.len() == worker.segments@.len(),
        is_stable_order(
            span_keys(worker.segments@),
            stable_order(span_keys(worker.segments@)),
        ),
        forall|k: int|
            0 <= k < resp.segments@.len() ==> same_span(
                #[trigger] resp.segments@[k],
                worker.segments@[stable_order(span_keys(worker.segments@))[k] as int],
            ),
        forall|i: int, j: int|
            0 <= i < j < resp.segments@.len() ==> !key_below(
                span_key(#[trigger] resp.segments@[j]),
                span_key(#[trigger] resp.segments@[i]),
            ),
        forall|k: int|
            0 <= k < resp.segments@.len() ==> {
                let (a, b) = (
                    #[trigger] resp.segments@[k],
                    worker.segments@[stable_order(span_keys(worker.segments@))[k] as int],
                );
                &&& a.start_ms == b.start_ms
                &&& a.end_ms == b.end_ms
                &&& a.speaker_id == b.speaker_id
                &&& a.speaker@ == b.speaker@
            },
        forall|i: int, j: int|
            0 <= i < j < resp.segments@.len() ==> {
                let (a, b) = (#[trigger] resp.segments@[i], #[trigger] resp.segments@[j]);
                &&& a.start_ms <= b.start_ms
                &&& a.start_ms == b.start_ms ==> a.end_ms <= b.end_ms
                &&& a.start_ms == b.start_ms && a.end_ms == b.end_ms ==> a.speaker_id
                    <= b.speaker_id
            },
{
    let segments = sort_segments(&worker.segments);
    DiarizeResp {
        model: worker.model,
        backend: worker.backend,
        frame_ms: worker.frame_ms,
        max_speakers: worker.max_speakers,
        segments,
        elapsed_ms,
    }
}

// ---------------------------------------------------------------------------
// The worker program
// ---------------------------------------------------------------------------

/// The name of the temporary file that a worker reads its audio from.
pub fn audio_file_name(process: u32, stamp: u128, request: u64) -> (name: String)
    ensures
        name@ == "shenava-diar-"@ + decimal(process as nat) + "-"@ + decimal(stamp as nat) + "-"@
            + decimal(request as nat) + ".wav"@,
{
    let mut name: String = "shenava-diar-".to_owned();
    push_decimal(&mut name, process as u128);
    name.append("-");
    push_decimal(&mut name, stamp);
    name.append("-");
    push_decimal(&mut name, request as u128);
    name.append(".wav");
    name
}

/// The arguments that a worker is started with.
pub fn worker_args(model: &str, audio_path: &str, backend: &str, preset: &str) -> (args: Vec<String>)
    ensures
        texts(args@) == seq![
            "--model"@,
            model@,
            "--audio"@,
            audio_path@,
            "--backend"@,
            backend@,
            "--preset"@,
            preset@,
        ],
{
    let mut args: Vec<String> = Vec::new();
    args.push("--model".to_owned());
    args.push(model.to_owned());
    args.push("--audio".to_owned());
    args.push(audio_path.to_owned());
    args.push("--backend".to_owned());
    args.push(backend.to_owned());
    args.push("--preset".to_owned());
    args.push(preset.to_owned());
    assert(texts(args@) == seq![
        "--model"@,
        model@,
        "--audio"@,
        audio_path@,
        "--backend"@,
        backend@,
        "--preset"@,
        preset@,
    ]);
    args
}

/// The line holds the beginning of a JSON object.
pub open spec fn opens_object(line: Seq<char>) -> bool {
    trimmed_start(line).len() > 0 && trimmed_start(line)[0] == '{'
}

/// The last of `rows` that opens a JSON object, trimmed.
pub open spec fn last_object(rows: Seq<Seq<char>>) -> Option<Seq<char>>
    decreases rows.len(),
{
    if rows.len() == 0 {
        None
    } else if opens_object(rows.last()) {
        Some(trimmed(rows.last()))
    } else {
        last_object(rows.drop_last())
    }
}

/// The text of the rows from `i` up to `j`, trimmed.
pub open spec fn run_text(rows: Seq<Seq<char>>, i: int, j: int) -> Seq<char> {
    trimmed(joined(rows.subrange(i, j), "\n"@))
}

/// The rows from `i` up to `j` are a JSON object.
pub open spec fn is_object_run(rows: Seq<Seq<char>>, i: int, j: int) -> bool {
    json_document(run_text(rows, i, j)) matches Some(document) && document is Object
}

/// Where the shortest JSON object ends that begins at row `i` and ends at row
/// `j` or behind it.
pub open spec fn first_end(rows: Seq<Seq<char>>, i: int, j: int) -> Option<int>
    decreases rows.len() + 1 - j,
{
    if j > rows.len() {
        None
    } else if is_object_run(rows, i, j) {
        Some(j)
    } else {
        first_end(rows, i, j + 1)
    }
}

/// Where the JSON object ends that begins at row `i`: the shortest one, if the
/// row opens an object at all.
pub open spec fn run_end(rows: Seq<Seq<char>>, i: int) -> Option<int> {
    if opens_object(rows[i]) {
        first_end(rows, i, i + 1)
    } else {
        None
    }
}

/// The JSON objects from row `i` on, by their first row and the row behind
/// their last. A row within one object begins no other.
pub open spec fn runs_from(rows: Seq<Seq<char>>, i: int) -> Seq<(int, int)>
    decreases rows.len() - i,
{
    if i >= rows.len() {
        Seq::empty()
    } else {
        match run_end(rows, i) {
            Some(j) => if i < j <= rows.len() {
                seq![(i, j)] + runs_from(rows, j)
            } else {
                Seq::empty()
            },
            None => runs_from(rows, i + 1),
        }
    }
}

/// What rows say in which these objects were found: the last of them, or else
/// the last row that opens an object.
pub open spec fn payload_of(rows: Seq<Seq<char>>, runs: Seq<(int, int)>) -> Option<Seq<char>> {
    if runs.len() > 0 {
        Some(run_text(rows, runs.last().0, runs.last().1))
    } else {
        last_object(rows)
    }
}

/// The bounds of a list of runs.
pub open spec fn bounds_of(runs: Seq<(usize, usize)>) -> Seq<(int, int)> {
    Seq::new(runs.len(), |k: int| (runs[k].0 as int, runs[k].1 as int))
}

/// Appends a row to the rows in front of it.
fn push_row(text: &mut Vec<char>, row: &[char], is_first: bool)
    ensures
        final(text)@ == if is_first {
            old(text)@ + row@
        } else {
            old(text)@ + "\n"@ + row@
        },
{
    proof {
        reveal_strlit("\n");
    }
    if !is_first {
        text.push('\n');
    }
    let ghost front = text@;
    let mut i: usize = 0;
    assert(front + row@.take(0) == front);
    while i < row.len()
        invariant
            i <= row.len(),
            text@ == front + row@.take(i as int),
        decreases row.len() - i,
    {
        text.push(row[i]);
        assert(row@.take(i + 1) == row@.take(i as int).push(row@[i as int]));
        i += 1;
    }
    assert(row@.take(row@.len() as int) == row@);
    assert(!is_first ==> text@ == old(text)@ + "\n"@ + row@);
}

/// Where the shortest JSON object ends that begins at row `i`.
fn find_end<'a>(rows: &Vec<&'a [char]>, i: usize) -> (end: Option<usize>)
    requires
        i < rows@.len(),
        opens_object(slices(rows@)[i as int]),
    ensures
        match run_end(slices(rows@), i as int) {
            Some(j) => end matches Some(e) && e == j && i < e <= rows@.len(),
            None => end is None,
        },
{
    let ghost all = slices(rows@);
    let mut text: Vec<char> = Vec::new();
    let mut j: usize = i;
    assert(all.subrange(i as int, i as int) == Seq::<Seq<char>>::empty());
    while j < rows.len()
        invariant
            i <= j <= rows.len(),
            all == slices(rows@),
            opens_object(all[i as int]),
            text@ == joined(all.subrange(i as int, j as int), "\n"@),
            run_end(all, i as int) == first_end(all, i as int, j + 1),
        decreases rows.len() - j,
    {
        let ghost before = all.subrange(i as int, j as int);
        let ghost after = all.subrange(i as int, j + 1);
        push_row(&mut text, rows[j], j == i);
        proof {
            assert(after.drop_last() == before);
            assert(after.last() == rows@[j as int]@);
            if j == i {
                assert(text@ == after[0]);
            }
            assert(text@ == joined(after, "\n"@));
        }
        j += 1;
        let document = string_of(trim(&text));
        match parse(document.as_str()) {
            Ok(value) => {
                if is_object(&value) {
                    assert(is_object_run(all, i as int, j as int));
                    return Some(j);
                }
            },
            Err(_) => {},
        }
        assert(!is_object_run(all, i as int, j as int));
    }
    None
}

/// The JSON objects that rows hold, by their first row and the row behind
/// their last.
fn find_runs<'a>(rows: &Vec<&'a [char]>) -> (runs: Vec<(usize, usize)>)
    ensures
        bounds_of(runs@) == runs_from(slices(rows@), 0),
        forall|k: int|
            0 <= k < runs@.len() ==> (#[trigger] runs@[k]).0 < runs@[k].1 && runs@[k].1
                <= rows@.len(),
{
    let ghost all = slices(rows@);
    let mut runs: Vec<(usize, usize)> = Vec::new();
    let mut i: usize = 0;
    assert(bounds_of(runs@) + runs_from(all, 0) == runs_from(all, 0));
    while i < rows.len()
        invariant
            i <= rows.len(),
            all == slices(rows@),
            bounds_of(runs@) + runs_from(all, i as int) == runs_from(all, 0),
            forall|k: int|
                0 <= k < runs@.len() ==> (#[trigger] runs@[k]).0 < runs@[k].1 && runs@[k].1
                    <= rows@.len(),
        decreases rows.len() - i,
    {
        let start = trim_start(rows[i]);
        assert(all[i as int] == rows@[i as int]@);
        let end: Option<usize> = if start.len() > 0 && start[0] == '{' {
            find_end(rows, i)
        } else {
            None
        };
        match end {
            Some(j) => {
                let ghost before = bounds_of(runs@);
                runs.push((i, j));
                proof {
                    assert(bounds_of(runs@) == before.push((i as int, j as int)));
                    assert(before + (seq![(i as int, j as int)] + runs_from(all, j as int))
                        == before.push((i as int, j as int)) + runs_from(all, j as int));
                }
                i = j;
            },
            None => {
                i += 1;
            },
        }
    }
    assert(bounds_of(runs@) + runs_from(all, i as int) == bounds_of(runs@));
    runs
}

/// What a worker's output says in whose lines these JSON objects were found:
/// the last of them, or else its last line that opens an object.
pub fn choose_payload(stdout: &str, runs: &Vec<(usize, usize)>) -> (payload: Option<String>)
    requires
        forall|k: int|
            0 <= k < runs@.len() ==> (#[trigger] runs@[k]).0 < runs@[k].1 && runs@[k].1 <= lines(
                stdout@,
            ).len(),
    ensures
        match payload_of(lines(stdout@), bounds_of(runs@)) {
            Some(text) => payload matches Some(p) && p@ == text,
            None => payload is None,
        },
{
    let chars = chars_of(stdout);
    let rows = split_lines(&chars);
    let ghost all = lines(stdout@);
    if runs.len() > 0 {
        let (first, end): (usize, usize) = runs[runs.len() - 1];
        assert(rows@.len() == slices(rows@).len());
        let mut text: Vec<char> = Vec::new();
        let mut j: usize = first;
        assert(all.subrange(first as int, first as int) == Seq::<Seq<char>>::empty());
        while j < end
            invariant
                first <= j <= end <= rows@.len(),
                slices(rows@) == all,
                text@ == joined(all.subrange(first as int, j as int), "\n"@),
            decreases end - j,
        {
            let ghost after = all.subrange(first as int, j + 1);
            push_row(&mut text, rows[j], j == first);
            proof {
                assert(after.drop_last() == all.subrange(first as int, j as int));
                assert(slices(rows@)[j as int] == rows@[j as int]@);
                assert(after.last() == rows@[j as int]@);
                if j == first {
                    assert(text@ == after[0]);
                }
                assert(text@ == joined(after, "\n"@));
            }
            j += 1;
        }
        return Some(string_of(trim(&text)));
    }
    let mut n: usize = rows.len();
    assert(all.take(n as int) == all);
    while n > 0
        invariant
            n <= rows.len(),
            slices(rows@) == all,
            all == lines(stdout@),
            runs@.len() == 0,
            last_object(all) == last_object(all.take(n as int)),
        decreases n,
    {
        let row = rows[n - 1];
        let start = trim_start(row);
        proof {
            assert(slices(rows@)[n - 1] == row@);
            assert(all.take(n as int).last() == row@);
            assert(all.take(n as int).drop_last() == all.take(n - 1));
        }
        if start.len() > 0 && start[0] == '{' {
            return Some(string_of(trim(row)));
        }
        n -= 1;
    }
    None
}

/// What a worker's output says: the last JSON object that it holds, on one line
/// or over several. Lines of any other kind are what libraries have logged.
/// Where no lines are a JSON object, it is the last line that opens one.
pub fn select_payload(stdout: &str) -> (payload: Option<String>)
    ensures
        match payload_of(lines(stdout@), runs_from(lines(stdout@), 0)) {
            Some(text) => payload matches Some(p) && p@ == text,
            None => payload is None,
        },
{
    let chars = chars_of(stdout);
    let rows = split_lines(&chars);
    let runs = find_runs(&rows);
    assert(rows@.len() == slices(rows@).len());
    choose_payload(stdout, &runs)
}

// ---------------------------------------------------------------------------
// Laws
// ---------------------------------------------------------------------------

/// One JSON object is found whole, on however many lines it stands: the rows
/// before it and behind it open none, and it is not complete before its last
/// row.
pub proof fn one_object_is_found_whole(
    before: Seq<Seq<char>>,
    object: Seq<Seq<char>>,
    after: Seq<Seq<char>>,
)
    requires
        forall|k: int| 0 <= k < before.len() ==> !opens_object(#[trigger] before[k]),
        forall|k: int| 0 <= k < after.len() ==> !opens_object(#[trigger] after[k]),
        object.len() > 0,
        opens_object(object[0]),
        is_object_run(object, 0, object.len() as int),
        forall|j: int| 0 < j < object.len() ==> !#[trigger] is_object_run(object, 0, j),
    ensures
        ({
            let rows = before + object + after;
            &&& runs_from(rows, 0) == seq![
                (before.len() as int, (before.len() + object.len()) as int),
            ]
            &&& payload_of(rows, runs_from(rows, 0)) == Some(
                trimmed(joined(object, "\n"@)),
            )
        }),
{
    let rows = before + object + after;
    let a = before.len() as int;
    let b = a + object.len();
    assert forall|j: int| 0 < j <= object.len() implies is_object_run(rows, a, a + j)
        == #[trigger] is_object_run(object, 0, j) by {
        assert(rows.subrange(a, a + j) == object.subrange(0, j));
    }
    assert forall|k: int| a + 1 <= k < b implies !#[trigger] is_object_run(rows, a, k) by {
        assert(!is_object_run(object, 0, k - a));
    }
    first_end_is_first(rows, a, a + 1, b);
    assert(rows[a] == object[0]);
    assert forall|k: int| b <= k < rows.len() implies !opens_object(#[trigger] rows[k]) by {
        assert(rows[k] == after[k - b]);
    }
    no_runs_where_none_opens(rows, b);
    assert(runs_from(rows, a) == seq![(a, b)]);
    assert forall|k: int| 0 <= k < a implies !opens_object(#[trigger] rows[k]) by {
        assert(rows[k] == before[k]);
    }
    runs_begin_where_one_opens(rows, 0, a);
    assert(rows.subrange(a, b) == object);
}

proof fn first_end_is_first(rows: Seq<Seq<char>>, i: int, j: int, end: int)
    requires
        j <= end <= rows.len(),
        is_object_run(rows, i, end),
        forall|k: int| j <= k < end ==> !#[trigger] is_object_run(rows, i, k),
    ensures
        first_end(rows, i, j) == Some(end),
    decreases end - j,
{
    if j < end {
        assert(!is_object_run(rows, i, j));
        first_end_is_first(rows, i, j + 1, end);
    }
}

proof fn no_runs_where_none_opens(rows: Seq<Seq<char>>, i: int)
    requires
        0 <= i,
        forall|k: int| i <= k < rows.len() ==> !opens_object(#[trigger] rows[k]),
    ensures
        runs_from(rows, i) == Seq::<(int, int)>::empty(),
    decreases rows.len() - i,
{
    if i < rows.len() {
        assert(!opens_object(rows[i]));
        no_runs_where_none_opens(rows, i + 1);
    }
}

proof fn runs_begin_where_one_opens(rows: Seq<Seq<char>>, i: int, at: int)
    requires
        0 <= i <= at <= rows.len(),
        forall|k: int| i <= k < at ==> !opens_object(#[trigger] rows[k]),
    ensures
        runs_from(rows, i) == runs_from(rows, at),
    decreases at - i,
{
    if i < at {
        assert(!opens_object(rows[i]));
        runs_begin_where_one_opens(rows, i + 1, at);
    }
}

/// Where lines are a JSON object at all, what a worker says is a JSON object.
pub proof fn found_objects_are_objects(rows: Seq<Seq<char>>, i: int)
    requires
        0 <= i,
        runs_from(rows, i).len() > 0,
    ensures
        payload_of(rows, runs_from(rows, i)) matches Some(text) && json_document(text) matches Some(
            document,
        ) && document is Object,
    decreases rows.len() - i,
{
    match run_end(rows, i) {
        Some(j) => {
            found_end_is_object(rows, i, i + 1);
            let rest = runs_from(rows, j);
            if rest.len() > 0 {
                found_objects_are_objects(rows, j);
                assert((seq![(i, j)] + rest).last() == rest.last());
            } else {
                assert((seq![(i, j)] + rest).last() == (i, j));
            }
        },
        None => {
            found_objects_are_objects(rows, i + 1);
        },
    }
}

proof fn found_end_is_object(rows: Seq<Seq<char>>, i: int, j: int)
    ensures
        first_end(rows, i, j) matches Some(end) ==> j <= end <= rows.len() && is_object_run(
            rows,
            i,
            end,
        ),
    decreases rows.len() + 1 - j,
{
    if j <= rows.len() && !is_object_run(rows, i, j) {
        found_end_is_object(rows, i, j + 1);
    }
}

/// Where no lines are a JSON object, lines behind the last one that opens an
/// object change nothing, as long as they open none.
pub proof fn log_lines_are_passed_over(rows: Seq<Seq<char>>, noise: Seq<Seq<char>>)
    requires
        forall|i: int| 0 <= i < noise.len() ==> !opens_object(#[trigger] noise[i]),
    ensures
        last_object(rows + noise) == last_object(rows),
    decreases noise.len(),
{
    if noise.len() == 0 {
        assert(rows + noise == rows);
    } else {
        assert((rows + noise).last() == noise.last());
        assert((rows + noise).drop_last() == rows + noise.drop_last());
        assert forall|i: int| 0 <= i < noise.drop_last().len() implies !opens_object(
            #[trigger] noise.drop_last()[i],
        ) by {
            assert(!opens_object(noise[i]));
        }
        log_lines_are_passed_over(rows, noise.drop_last());
    }
}

/// Only a valid selector is ever handed to a diarizer, and the built-in model
/// answers only under its own names.
pub proof fn diarizers_get_valid_selectors(
    requested: Option<Seq<char>>,
    worker_model: Option<Seq<char>>,
    native: bool,
    has_file: bool,
)
    ensures
        match engine_of(requested, worker_model, native, has_file) {
            Ok(Engine::Native) => is_selector(asked_model(requested, worker_model)) && is_nemotron(
                asked_model(requested, worker_model),
            ) && native && has_file,
            Ok(Engine::Worker) => is_selector(asked_model(requested, worker_model)) && worker_model
                is Some && has_file,
            Err(_) => true,
        },
{
}

/// Sorting spans loses none and adds none.
pub proof fn sorting_keeps_spans(segments: Seq<DiarizeSegment>)
    requires
        segments.len() <= usize::MAX,
    ensures
        crate::order::reordered(segments, stable_order(span_keys(segments))).to_multiset()
            == segments.to_multiset(),
{
    crate::order::stable_order_exists(span_keys(segments));
    crate::order::ascending_is_distinct(span_keys(segments), stable_order(span_keys(segments)));
    crate::order::reordering_keeps_items(segments, stable_order(span_keys(segments)));
}

/// Spans that are in order already keep their places, so the built-in model's
/// answer is handed on as it found it.
pub proof fn ordered_spans_keep_their_places(segments: Seq<DiarizeSegment>, k: int)
    requires
        segments.len() <= usize::MAX,
        forall|i: int, j: int|
            0 <= i < j < segments.len() ==> !key_below(
                span_key(#[trigger] segments[j]),
                span_key(#[trigger] segments[i]),
            ),
        0 <= k < segments.len(),
    ensures
        stable_order(span_keys(segments))[k] == k,
{
    let keys = span_keys(segments);
    let places = Seq::new(segments.len(), |i: int| i as usize);
    assert forall|i: usize| 0 <= i < keys.len() implies #[trigger] places.contains(i) by {
        assert(places[i as int] == i);
    }
    assert forall|p: int, q: int| 0 <= p < q < places.len() implies precedes(
        keys,
        #[trigger] places[p] as int,
        #[trigger] places[q] as int,
    ) by {
        assert(!key_below(span_key(segments[q]), span_key(segments[p])));
    }
    assert(is_stable_order(keys, places));
    crate::order::stable_order_exists(keys);
    crate::order::stable_order_is_unique(keys, places, stable_order(keys));
}

/// A span is sorted by its own start, end and speaker number.
pub proof fn spans_are_sorted_by_their_times(segments: Seq<DiarizeSegment>, i: int)
    requires
        0 <= i < segments.len(),
    ensures
        span_keys(segments).len() == segments.len(),
        span_keys(segments)[i].first == segments[i].start_ms,
        span_keys(segments)[i].second == segments[i].end_ms,
        span_keys(segments)[i].third == segments[i].speaker_id,
{
}

/// A line opens an object where its first character that is no whitespace is an
/// opening brace. The fallback of a worker's answer is the last such line,
/// trimmed, and there is none where no line opens an object.
pub proof fn last_opening_line_is_the_fallback(rows: Seq<Seq<char>>, line: Seq<char>)
    ensures
        last_object(Seq::<Seq<char>>::empty()) is None,
        trimmed_start(line).len() > 0 && trimmed_start(line)[0] == '{' ==> opens_object(line)
            && last_object(rows.push(line)) == Some(trimmed(line)),
        trimmed_start(line).len() == 0 || trimmed_start(line)[0] != '{' ==> !opens_object(line)
            && last_object(rows.push(line)) == last_object(rows),
{
    assert(rows.push(line).drop_last() == rows);
}

/// Lines are an object where their text, joined by line feeds and trimmed, is a
/// JSON object.
pub proof fn objects_are_told_by_their_text(rows: Seq<Seq<char>>, i: int, j: int)
    ensures
        is_object_run(rows, i, j) <==> (json_document(trimmed(joined(rows.subrange(i, j), "\n"@)))
            matches Some(Json::Object(_))),
{
}

/// The shortest object that begins at a line that opens one is found, and the
/// search goes on behind it.
pub proof fn shortest_object_is_found(rows: Seq<Seq<char>>, i: int, j: int)
    requires
        0 <= i < j <= rows.len(),
        opens_object(rows[i]),
        is_object_run(rows, i, j),
        forall|k: int| i < k < j ==> !#[trigger] is_object_run(rows, i, k),
    ensures
        runs_from(rows, i) == seq![(i, j)] + runs_from(rows, j),
{
    first_end_is_first(rows, i, i + 1, j);
}

/// Where no object begins at a line, the search goes on at the next one, and it
/// ends behind the last.
pub proof fn search_goes_on_at_the_next_line(rows: Seq<Seq<char>>, i: int)
    requires
        0 <= i,
        i < rows.len() ==> !opens_object(rows[i]) || forall|k: int|
            i < k <= rows.len() ==> !#[trigger] is_object_run(rows, i, k),
    ensures
        i < rows.len() ==> runs_from(rows, i) == runs_from(rows, i + 1),
        i >= rows.len() ==> runs_from(rows, i) == Seq::<(int, int)>::empty(),
{
    if i < rows.len() && opens_object(rows[i]) {
        found_end_is_object(rows, i, i + 1);
    }
}

/// A worker's answer is the last object found, joined by line feeds and trimmed,
/// and the fallback only where none was found.
pub proof fn last_object_found_is_the_answer(
    rows: Seq<Seq<char>>,
    runs: Seq<(int, int)>,
    i: int,
    j: int,
)
    ensures
        payload_of(rows, runs.push((i, j))) == Some(trimmed(joined(rows.subrange(i, j), "\n"@))),
        payload_of(rows, Seq::<(int, int)>::empty()) == last_object(rows),
{
    assert(runs.push((i, j)).last() == (i, j));
}

/// The bounds of runs are those of their entries.
pub proof fn bounds_are_those_of_the_runs(runs: Seq<(usize, usize)>, k: int)
    requires
        0 <= k < runs.len(),
    ensures
        bounds_of(runs).len() == runs.len(),
        bounds_of(runs)[k].0 == runs[k].0,
        bounds_of(runs)[k].1 == runs[k].1,
{
}

} // verus!
