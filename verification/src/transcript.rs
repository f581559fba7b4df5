//! From decoded pieces to a transcript.

use vstd::prelude::*;
use vstd::string::*;

use crate::diarize::DiarizeSegment;
use crate::model::INPUT_FRAMES;
use crate::request::{push_all, TranscriptSegment, CHUNK_SECONDS};
use crate::text::{first_part_comes_first, join, joined, texts};

verus! {

// ---------------------------------------------------------------------------
// Offline chunks
// ---------------------------------------------------------------------------

/// How many samples an offline chunk has at most.
pub open spec fn chunk_size(sample_rate: u32) -> int {
    sample_rate * CHUNK_SECONDS
}

/// `bounds` divides `samples` samples into chunks: each begins where the one
/// before it ends, the first at the first sample, the last up to the last, and
/// all but the last have `size` samples.
pub open spec fn divides(bounds: Seq<(usize, usize)>, samples: int, size: int) -> bool {
    &&& forall|k: int|
        0 <= k < bounds.len() ==> (#[trigger] bounds[k]).0 == k * size && bounds[k].0 < bounds[k].1
    &&& forall|k: int|
        0 <= k < bounds.len() ==> (#[trigger] bounds[k]).1 == if k + 1 < bounds.len() {
            (k + 1) * size
        } else {
            samples
        }
    &&& bounds.len() == 0 ==> samples == 0
    &&& bounds.len() > 0 ==> samples <= bounds.len() * size
}

/// Where the offline chunks of a signal begin and end.
pub fn chunk_bounds(samples: usize, sample_rate: u32) -> (bounds: Vec<(usize, usize)>)
    requires
        sample_rate > 0,
    ensures
        divides(bounds@, samples as int, chunk_size(sample_rate)),
        samples == 0 <==> bounds@.len() == 0,
        samples <= bounds@.len() * (10 * sample_rate),
        forall|k: int|
            0 <= k < bounds@.len() ==> {
                &&& (#[trigger] bounds@[k]).0 == k * (10 * sample_rate)
                &&& bounds@[k].0 < bounds@[k].1
                &&& k + 1 < bounds@.len() ==> bounds@[k].1 == (k + 1) * (10 * sample_rate)
                &&& k + 1 == bounds@.len() ==> bounds@[k].1 == samples
            },
{
    let size: u64 = sample_rate as u64 * CHUNK_SECONDS;
    let mut bounds: Vec<(usize, usize)> = Vec::new();
    let mut start: usize = 0;
    assert(0 * size == 0) by (nonlinear_arith);
    while start < samples
        invariant
            size == chunk_size(sample_rate),
            size > 0,
            start <= samples,
            start < samples ==> start == bounds@.len() * size,
            start == samples ==> bounds@.len() * size >= samples,
            start == samples && samples > 0 ==> bounds@.len() > 0,
            forall|k: int|
                0 <= k < bounds@.len() ==> (#[trigger] bounds@[k]).0 == k * size && bounds@[k].0
                    < bounds@[k].1,
            forall|k: int|
                0 <= k < bounds@.len() ==> (#[trigger] bounds@[k]).1 == if k + 1 < bounds@.len() {
                    (k + 1) * size
                } else {
                    start as int
                },
        decreases samples - start,
    {
        let ghost n = bounds@.len() as int;
        assert((n + 1) * size == n * size + size) by (nonlinear_arith);
        let end: usize = if ((samples - start) as u64) <= size {
            samples
        } else {
            start + size as usize
        };
        bounds.push((start, end));
        start = end;
    }
    assert(size == 10 * sample_rate);
    assert(bounds@.len() > 0 ==> bounds@[bounds@.len() - 1].0 < bounds@[bounds@.len() - 1].1);
    bounds
}

/// Every sample is in one chunk.
pub proof fn chunks_cover_the_signal(bounds: Seq<(usize, usize)>, samples: int, size: int, at: int)
    requires
        size > 0,
        divides(bounds, samples, size),
        0 <= at < samples,
    ensures
        ({
            let k = at / size;
            &&& 0 <= k < bounds.len()
            &&& bounds[k].0 <= at < bounds[k].1
        }),
        forall|k: int|
            0 <= k < bounds.len() && (#[trigger] bounds[k]).0 <= at < bounds[k].1 ==> k == at / size,
{
    let k = at / size;
    vstd::arithmetic::div_mod::lemma_fundamental_div_mod(at, size);
    assert(0 <= k < bounds.len() && k * size <= at && at < (k + 1) * size) by (nonlinear_arith)
        requires
            size > 0,
            0 <= at < samples,
            samples <= bounds.len() * size,
            at == size * k + at % size,
            0 <= at % size < size,
    ;
    assert forall|j: int| 0 <= j < bounds.len() && (#[trigger] bounds[j]).0 <= at < bounds[j].1 implies j
        == k by {
        if j < k {
            assert((j + 1) * size <= k * size) by (nonlinear_arith)
                requires
                    j + 1 <= k,
                    size > 0,
            ;
        } else if j > k {
            assert((k + 1) * size <= j * size) by (nonlinear_arith)
                requires
                    k + 1 <= j,
                    size > 0,
            ;
        }
    }
}

/// How many chunks there are.
proof fn chunks_are_counted(bounds: Seq<(usize, usize)>, samples: int, size: int)
    requires
        size > 0,
        divides(bounds, samples, size),
    ensures
        bounds.len() == 0 <==> samples == 0,
        bounds.len() > 0 ==> (bounds.len() - 1) * size < samples <= bounds.len() * size,
{
    if bounds.len() > 0 {
        let last = bounds[bounds.len() - 1];
        assert(last.0 == (bounds.len() - 1) * size && last.0 < last.1);
        assert(last.1 == samples);
    }
}

/// No samples make no chunk, and samples that fit one chunk make one.
pub proof fn short_signals_are_one_chunk(bounds: Seq<(usize, usize)>, samples: int, size: int)
    requires
        0 <= samples <= size,
        size > 0,
        divides(bounds, samples, size),
    ensures
        samples == 0 ==> bounds.len() == 0,
        samples > 0 ==> bounds.len() == 1 && bounds[0].0 == 0 && bounds[0].1 == samples,
{
    chunks_are_counted(bounds, samples, size);
    if samples > 0 && bounds.len() > 1 {
        assert((bounds.len() - 1) * size >= size) by (nonlinear_arith)
            requires
                bounds.len() > 1,
                size > 0,
        ;
    }
    if samples > 0 {
        assert(0 * size == 0);
        assert(bounds[0].0 == 0 * size);
    }
}

/// Cutting off the first chunk of a longer signal leaves the chunks of the
/// rest.
pub proof fn first_chunk_leaves_the_rest(
    bounds: Seq<(usize, usize)>,
    rest: Seq<(usize, usize)>,
    samples: int,
    size: int,
)
    requires
        0 < size < samples,
        divides(bounds, samples, size),
        divides(rest, samples - size, size),
    ensures
        bounds.len() == rest.len() + 1,
        bounds[0].0 == 0 && bounds[0].1 == size,
        forall|k: int|
            0 <= k < rest.len() ==> (#[trigger] rest[k]).0 + size == bounds[k + 1].0 && rest[k].1 + size
                == bounds[k + 1].1,
{
    chunks_are_counted(bounds, samples, size);
    chunks_are_counted(rest, samples - size, size);
    let (a, b) = (bounds.len() as int, rest.len() as int);
    assert(a == b + 1) by (nonlinear_arith)
        requires
            size > 0,
            a > 0,
            b > 0,
            (a - 1) * size < samples <= a * size,
            (b - 1) * size < samples - size <= b * size,
    ;
    assert(0 * size == 0);
    assert(1 * size == size);
    assert(bounds[0].0 == 0 * size);
    assert(bounds[0].1 == 1 * size);
    assert forall|k: int| 0 <= k < rest.len() implies (#[trigger] rest[k]).0 + size == bounds[k
        + 1].0 && rest[k].1 + size == bounds[k + 1].1 by {
        assert(k * size + size == (k + 1) * size) by (nonlinear_arith);
        assert((k + 1) * size + size == (k + 2) * size) by (nonlinear_arith);
        assert(bounds[k + 1].0 == (k + 1) * size);
    }
}

/// No chunk is longer than the chunk size, so at the rate that the features
/// are computed at, every chunk fits the window of the offline model.
pub proof fn chunks_fit_the_window(bounds: Seq<(usize, usize)>, samples: int, k: int)
    requires
        divides(bounds, samples, chunk_size(16_000)),
        0 <= k < bounds.len(),
    ensures
        bounds[k].1 - bounds[k].0 <= chunk_size(16_000),
        1 + (bounds[k].1 - bounds[k].0) / 160 <= INPUT_FRAMES,
{
    let size = chunk_size(16_000);
    assert((k + 1) * size == k * size + size) by (nonlinear_arith);
    if k + 1 == bounds.len() {
        assert(samples <= bounds.len() * size);
    }
}

/// Audio that is too long for the offline model.
#[derive(Debug, Clone, Copy, PartialEq, Eq, Structural)]
pub struct TooLong;

/// Whether as many feature frames fit the window of the offline model.
pub fn check_window(frames: usize) -> (r: Result<(), TooLong>)
    ensures
        r is Ok <==> frames <= INPUT_FRAMES,
        r is Ok <==> frames <= 2005,
{
    if frames <= INPUT_FRAMES {
        Ok(())
    } else {
        Err(TooLong)
    }
}

// ---------------------------------------------------------------------------
// Hotwords
// ---------------------------------------------------------------------------

/// The hotwords that a request is decoded with: those of the server and behind
/// them its own, or `None` where there are none.
pub fn hotbeam_words(server: &Vec<String>, request: &Vec<String>) -> (words: Option<Vec<String>>)
    ensures
        match words {
            Some(all) => all@.len() > 0 && texts(all@) == texts(server@) + texts(request@),
            None => server@.len() == 0 && request@.len() == 0,
        },
{
    let mut all: Vec<String> = Vec::new();
    push_all(&mut all, server);
    push_all(&mut all, request);
    assert(texts(all@) == texts(server@) + texts(request@));
    assert(all@.len() == texts(all@).len());
    assert(all@.len() == server@.len() + request@.len());
    if all.len() == 0 {
        None
    } else {
        Some(all)
    }
}

/// What is decoded of a piece of audio.
pub struct Decoded {
    /// The transcript.
    pub text: String,
    /// The greedy transcript.
    pub greedy: String,
    /// Hotwords were used.
    pub used_hotbeam: bool,
}

/// What is decoded of a piece of audio, of its greedy transcript and, where
/// there were hotwords, of its transcript with them. Without hotwords the
/// greedy transcript is the transcript.
pub fn decoded(greedy: String, hotbeam: Option<String>) -> (out: Decoded)
    ensures
        out.greedy == greedy,
        match hotbeam {
            Some(text) => out.text == text && out.used_hotbeam,
            None => out.text@ == greedy@ && !out.used_hotbeam,
        },
{
    match hotbeam {
        Some(text) => Decoded { text, greedy, used_hotbeam: true },
        None => Decoded { text: greedy.clone(), greedy, used_hotbeam: false },
    }
}

/// The transcripts of a list.
pub open spec fn texts_of(parts: Seq<Decoded>) -> Seq<Seq<char>> {
    Seq::new(parts.len(), |i: int| parts[i].text@)
}

/// The greedy transcripts of a list.
pub open spec fn greedies_of(parts: Seq<Decoded>) -> Seq<Seq<char>> {
    Seq::new(parts.len(), |i: int| parts[i].greedy@)
}

/// Hotwords were used for one of the pieces.
pub open spec fn any_hotbeam(parts: Seq<Decoded>) -> bool {
    exists|i: int| 0 <= i < parts.len() && (#[trigger] parts[i]).used_hotbeam
}

/// The pieces one after the other, with a space between each two.
pub fn join_chunks(parts: &Vec<Decoded>) -> (out: Decoded)
    ensures
        out.text@ == joined(texts_of(parts@), " "@),
        out.greedy@ == joined(greedies_of(parts@), " "@),
        out.used_hotbeam == any_hotbeam(parts@),
        out.text@ == joined(Seq::new(parts@.len(), |i: int| parts@[i].text@), " "@),
        out.greedy@ == joined(Seq::new(parts@.len(), |i: int| parts@[i].greedy@), " "@),
        out.used_hotbeam <==> exists|i: int|
            0 <= i < parts@.len() && (#[trigger] parts@[i]).used_hotbeam,
{
    let mut all: Vec<String> = Vec::new();
    let mut greedies: Vec<String> = Vec::new();
    let mut used_hotbeam: bool = false;
    let mut i: usize = 0;
    while i < parts.len()
        invariant
            i <= parts.len(),
            texts(all@) == texts_of(parts@).take(i as int),
            texts(greedies@) == greedies_of(parts@).take(i as int),
            used_hotbeam == exists|j: int| 0 <= j < i && (#[trigger] parts@[j]).used_hotbeam,
        decreases parts.len() - i,
    {
        let ghost before = (texts(all@), texts(greedies@));
        all.push(parts[i].text.clone());
        greedies.push(parts[i].greedy.clone());
        proof {
            assert(texts(all@) == before.0.push(parts@[i as int].text@));
            assert(texts(greedies@) == before.1.push(parts@[i as int].greedy@));
            assert(texts(all@) == texts_of(parts@).take(i + 1));
            assert(texts(greedies@) == greedies_of(parts@).take(i + 1));
        }
        if parts[i].used_hotbeam {
            used_hotbeam = true;
        }
        i += 1;
    }
    assert(texts_of(parts@).take(parts@.len() as int) == texts_of(parts@));
    assert(greedies_of(parts@).take(parts@.len() as int) == greedies_of(parts@));
    Decoded { text: join(&all, " "), greedy: join(&greedies, " "), used_hotbeam }
}

/// No piece before piece `n` has failed.
pub open spec fn succeeded<E>(results: Seq<Result<Decoded, E>>, n: int) -> bool {
    forall|i: int| 0 <= i < n ==> (#[trigger] results[i]) is Ok
}

/// The pieces of a list in which none has failed.
pub open spec fn parts_of<E>(results: Seq<Result<Decoded, E>>) -> Seq<Decoded> {
    Seq::new(results.len(), |i: int| results[i]->Ok_0)
}

/// The transcript of pieces one after the other, the greedy one, and whether
/// hotwords were used; `None` where a piece has failed.
pub open spec fn transcript_of<E>(results: Seq<Result<Decoded, E>>) -> Option<
    (Seq<char>, Seq<char>, bool),
> {
    if succeeded(results, results.len() as int) {
        let parts = parts_of(results);
        Some((joined(texts_of(parts), " "@), joined(greedies_of(parts), " "@), any_hotbeam(parts)))
    } else {
        None
    }
}

/// What is decoded of chunks one after the other: the pieces joined, or the
/// first failure and the number of its chunk.
pub fn join_results<E>(results: Vec<Result<Decoded, E>>) -> (r: Result<Decoded, (usize, E)>)
    ensures
        match r {
            Ok(out) => transcript_of(results@) == Some((out.text@, out.greedy@, out.used_hotbeam)),
            Err((k, error)) => {
                &&& k < results@.len()
                &&& succeeded(results@, k as int)
                &&& results@[k as int] == Err::<Decoded, E>(error)
                &&& transcript_of(results@) is None
            },
        },
        r is Ok <==> forall|i: int| 0 <= i < results@.len() ==> (#[trigger] results@[i]) is Ok,
        r matches Err((k, error)) ==> forall|i: int|
            0 <= i < k ==> (#[trigger] results@[i]) is Ok,
{
    let ghost all = results@;
    let mut list = results;
    let mut parts: Vec<Decoded> = Vec::new();
    let mut i: usize = 0;
    while i < list.len()
        invariant
            i <= list.len(),
            list@ == all,
            all == results@,
            succeeded(all, i as int),
            parts@.len() == i,
            forall|k: int|
                0 <= k < i ==> {
                    let (part, from) = (#[trigger] parts@[k], all[k]->Ok_0);
                    &&& part.text@ == from.text@
                    &&& part.greedy@ == from.greedy@
                    &&& part.used_hotbeam == from.used_hotbeam
                },
        decreases list.len() - i,
    {
        match &list[i] {
            Ok(part) => {
                parts.push(
                    Decoded {
                        text: part.text.clone(),
                        greedy: part.greedy.clone(),
                        used_hotbeam: part.used_hotbeam,
                    },
                );
            },
            Err(_) => {
                assert(!(all[i as int] is Ok));
                assert(!succeeded(all, all.len() as int));
                let failure = list.swap_remove(i);
                if let Err(error) = failure {
                    return Err((i, error));
                }
            },
        }
        i += 1;
    }
    proof {
        let whole = parts_of(all);
        assert(texts_of(parts@) == texts_of(whole));
        assert(greedies_of(parts@) == greedies_of(whole));
        assert(any_hotbeam(parts@) == any_hotbeam(whole)) by {
            if any_hotbeam(parts@) {
                let k = choose|k: int| 0 <= k < parts@.len() && (#[trigger] parts@[k]).used_hotbeam;
                assert(whole[k].used_hotbeam);
            }
            if any_hotbeam(whole) {
                let k = choose|k: int| 0 <= k < whole.len() && (#[trigger] whole[k]).used_hotbeam;
                assert(parts@[k].used_hotbeam);
            }
        }
    }
    Ok(join_chunks(&parts))
}

/// The first piece comes first: with more behind it, the transcript is its
/// text, a space and the transcript of the rest. It fails where the piece fails
/// or the rest does.
pub proof fn first_piece_comes_first<E>(first: Result<Decoded, E>, rest: Seq<Result<Decoded, E>>)
    requires
        rest.len() > 0,
    ensures
        match (first, transcript_of(rest)) {
            (Ok(piece), Some((text, greedy, used))) => transcript_of(seq![first] + rest) == Some(
                (
                    piece.text@ + " "@ + text,
                    piece.greedy@ + " "@ + greedy,
                    piece.used_hotbeam || used,
                ),
            ),
            _ => transcript_of(seq![first] + rest) is None,
        },
{
    let all = seq![first] + rest;
    let n = rest.len() as int;
    assert(all[0] == first);
    assert forall|i: int| 0 <= i < n implies all[i + 1] == #[trigger] rest[i] by {}
    if first is Ok && succeeded(rest, n) {
        assert(succeeded(all, n + 1)) by {
            assert forall|i: int| 0 <= i < n + 1 implies (#[trigger] all[i]) is Ok by {
                if i > 0 {
                    assert(rest[i - 1] is Ok);
                }
            }
        }
        let (parts, others, piece) = (parts_of(all), parts_of(rest), first->Ok_0);
        assert(texts_of(parts) == seq![piece.text@] + texts_of(others));
        assert(greedies_of(parts) == seq![piece.greedy@] + greedies_of(others));
        first_part_comes_first(piece.text@, texts_of(others), " "@);
        first_part_comes_first(piece.greedy@, greedies_of(others), " "@);
        assert(any_hotbeam(parts) == (piece.used_hotbeam || any_hotbeam(others))) by {
            assert(parts[0] == piece);
            if any_hotbeam(parts) {
                let k = choose|k: int| 0 <= k < parts.len() && (#[trigger] parts[k]).used_hotbeam;
                if k > 0 {
                    assert(others[k - 1] == parts[k]);
                }
            }
            if any_hotbeam(others) {
                let k = choose|k: int| 0 <= k < others.len() && (#[trigger] others[k]).used_hotbeam;
                assert(parts[k + 1] == others[k]);
            }
        }
    } else if first is Ok {
        let i = choose|i: int| 0 <= i < n && !((#[trigger] rest[i]) is Ok);
        assert(!(all[i + 1] is Ok));
    }
}

/// No pieces make an empty transcript, and one piece is the transcript.
pub proof fn one_piece_is_the_transcript<E>(piece: Decoded)
    ensures
        transcript_of(Seq::<Result<Decoded, E>>::empty()) == Some(
            (Seq::<char>::empty(), Seq::<char>::empty(), false),
        ),
        transcript_of(seq![Ok::<Decoded, E>(piece)]) == Some(
            (piece.text@, piece.greedy@, piece.used_hotbeam),
        ),
{
    let one = parts_of(seq![Ok::<Decoded, E>(piece)]);
    assert(one[0] == piece);
    assert(texts_of(one) == seq![piece.text@]);
    assert(greedies_of(one) == seq![piece.greedy@]);
}

/// Without hotwords the transcript stays the greedy one: where it is that of
/// every piece, it is that of the pieces together.
pub proof fn greedy_pieces_make_a_greedy_transcript(parts: Seq<Decoded>)
    requires
        forall|i: int| 0 <= i < parts.len() ==> (#[trigger] parts[i]).text@ == parts[i].greedy@,
    ensures
        joined(texts_of(parts), " "@) == joined(greedies_of(parts), " "@),
{
    assert(texts_of(parts) == greedies_of(parts));
}

// ---------------------------------------------------------------------------
// Diarized transcripts
// ---------------------------------------------------------------------------

/// The sample at a time, or the end of the signal where that comes first.
pub open spec fn sample_at(ms: u64, sample_rate: u32, samples: int) -> int {
    let at = ms * sample_rate / 1000;
    if at < samples {
        at
    } else {
        samples
    }
}

/// The sample at `ms` milliseconds, or the end of the signal where that comes
/// first.
fn locate(ms: u64, sample_rate: u32, samples: usize) -> (at: usize)
    ensures
        at == sample_at(ms, sample_rate, samples as int),
        at <= samples,
{
    assert(0 <= ms * sample_rate <= 0xFFFF_FFFF_FFFF_FFFFu64 * 0xFFFF_FFFFu32) by (nonlinear_arith)
        requires
            0 <= ms <= 0xFFFF_FFFF_FFFF_FFFFu64,
            0 <= sample_rate <= 0xFFFF_FFFFu32,
    ;
    let at: u128 = ms as u128 * sample_rate as u128 / 1000;
    if at < samples as u128 {
        at as usize
    } else {
        samples
    }
}

/// Which samples a span of time takes, or `None` where it takes none.
pub fn segment_bounds(start_ms: u64, end_ms: u64, sample_rate: u32, samples: usize) -> (r: Option<
    (usize, usize),
>)
    ensures
        ({
            let start = sample_at(start_ms, sample_rate, samples as int);
            let end = sample_at(end_ms, sample_rate, samples as int);
            if end > start {
                r matches Some((a, b)) && a == start && b == end && b <= samples
            } else {
                r is None
            }
        }),
        ({
            let first = start_ms * sample_rate / 1000;
            let behind = end_ms * sample_rate / 1000;
            &&& first < behind && first < samples ==> {
                &&& r matches Some((a, b))
                &&& a == first
                &&& behind < samples ==> b == behind
                &&& behind >= samples ==> b == samples
            }
            &&& !(first < behind && first < samples) ==> r is None
        }),
{
    let start: usize = locate(start_ms, sample_rate, samples);
    let end: usize = locate(end_ms, sample_rate, samples);
    if end > start {
        Some((start, end))
    } else {
        None
    }
}

/// A time within the signal is at its own sample, and one beyond it at its end.
pub proof fn times_are_at_their_own_samples(ms: u64, sample_rate: u32, samples: int)
    ensures
        ms * sample_rate / 1000 < samples ==> sample_at(ms, sample_rate, samples) == ms * sample_rate
            / 1000,
        ms * sample_rate / 1000 >= samples ==> sample_at(ms, sample_rate, samples) == samples,
{
}

/// So many seconds within the signal are so many times the samples of one
/// second, wherever they begin and end.
pub proof fn seconds_have_their_samples(from: u64, to: u64, sample_rate: u32, samples: int)
    requires
        from <= to,
        to * 1000 <= u64::MAX,
        to * sample_rate < samples,
    ensures
        sample_at((to * 1000) as u64, sample_rate, samples) - sample_at(
            (from * 1000) as u64,
            sample_rate,
            samples,
        ) == (to - from) * sample_rate,
        sample_at((from * 1000) as u64, sample_rate, samples) == from * sample_rate,
{
    assert((from * 1000) * sample_rate / 1000 == from * sample_rate) by (nonlinear_arith);
    assert((to * 1000) * sample_rate / 1000 == to * sample_rate) by (nonlinear_arith);
    assert(from * sample_rate <= to * sample_rate) by (nonlinear_arith)
        requires
            from <= to,
            0 <= sample_rate,
    ;
    assert(to * sample_rate - from * sample_rate == (to - from) * sample_rate) by (nonlinear_arith);
}

/// A later time is never at an earlier sample.
pub proof fn samples_follow_time(a_ms: u64, b_ms: u64, sample_rate: u32, samples: int)
    requires
        a_ms <= b_ms,
    ensures
        sample_at(a_ms, sample_rate, samples) <= sample_at(b_ms, sample_rate, samples),
{
    assert(a_ms * sample_rate <= b_ms * sample_rate) by (nonlinear_arith)
        requires
            a_ms <= b_ms,
            0 <= sample_rate,
    ;
}

/// The lines `speaker: text` of the entries with a text, in order.
pub open spec fn speaker_lines(speakers: Seq<Seq<char>>, said: Seq<Seq<char>>) -> Seq<Seq<char>>
    decreases said.len(),
{
    if said.len() == 0 {
        Seq::empty()
    } else {
        let before = speaker_lines(speakers.drop_last(), said.drop_last());
        if said.last().len() == 0 {
            before
        } else {
            before.push(speakers.last() + ": "@ + said.last())
        }
    }
}

/// The names of the speakers of a list of spans.
pub open spec fn speakers_of(segments: Seq<DiarizeSegment>) -> Seq<Seq<char>> {
    Seq::new(segments.len(), |i: int| segments[i].speaker@)
}

/// A diarized transcript.
pub struct DiarizedTranscript {
    pub text: String,
    pub greedy: String,
    pub segments: Vec<TranscriptSegment>,
}

/// One line of a diarized transcript.
fn speaker_line(speaker: &String, said: &String) -> (line: String)
    ensures
        line@ == speaker@ + ": "@ + said@,
{
    let mut line: String = speaker.clone();
    line.append(": ");
    line.append(said.as_str());
    line
}

/// The diarized transcript of spans and what is decoded of each: every span
/// with its texts, and one line per span in which something was said.
pub fn assemble(segments: &Vec<DiarizeSegment>, parts: &Vec<Decoded>) -> (out: DiarizedTranscript)
    requires
        segments@.len() == parts@.len(),
    ensures
        out.text@ == joined(speaker_lines(speakers_of(segments@), texts_of(parts@)), "\n"@),
        out.greedy@ == joined(speaker_lines(speakers_of(segments@), greedies_of(parts@)), "\n"@),
        ({
            let names = Seq::new(segments@.len(), |i: int| segments@[i].speaker@);
            let said = Seq::new(parts@.len(), |i: int| parts@[i].text@);
            let greedy = Seq::new(parts@.len(), |i: int| parts@[i].greedy@);
            &&& out.text@ == joined(speaker_lines(names, said), "\n"@)
            &&& out.greedy@ == joined(speaker_lines(names, greedy), "\n"@)
        }),
        out.segments@.len() == segments@.len(),
        forall|i: int|
            0 <= i < segments@.len() ==> {
                let span = segments@[i];
                let entry = #[trigger] out.segments@[i];
                &&& entry.start_ms == span.start_ms
                &&& entry.end_ms == span.end_ms
                &&& entry.speaker_id == span.speaker_id
                &&& entry.speaker@ == span.speaker@
                &&& entry.text@ == parts@[i].text@
                &&& entry.greedy@ == parts@[i].greedy@
            },
{
    let mut entries: Vec<TranscriptSegment> = Vec::new();
    let mut said: Vec<String> = Vec::new();
    let mut greedy: Vec<String> = Vec::new();
    let ghost names = speakers_of(segments@);
    let mut i: usize = 0;
    while i < segments.len()
        invariant
            i <= segments.len(),
            segments@.len() == parts@.len(),
            names == speakers_of(segments@),
            texts(said@) == speaker_lines(names.take(i as int), texts_of(parts@).take(i as int)),
            texts(greedy@) == speaker_lines(names.take(i as int), greedies_of(parts@).take(i as int)),
            entries@.len() == i,
            forall|j: int|
                0 <= j < i ==> {
                    let span = segments@[j];
                    let entry = #[trigger] entries@[j];
                    &&& entry.start_ms == span.start_ms
                    &&& entry.end_ms == span.end_ms
                    &&& entry.speaker_id == span.speaker_id
                    &&& entry.speaker@ == span.speaker@
                    &&& entry.text@ == parts@[j].text@
                    &&& entry.greedy@ == parts@[j].greedy@
                },
        decreases segments.len() - i,
    {
        let span = &segments[i];
        let part = &parts[i];
        let ghost before = (texts(said@), texts(greedy@));
        proof {
            assert(names.take(i + 1).drop_last() == names.take(i as int));
            assert(texts_of(parts@).take(i + 1).drop_last() == texts_of(parts@).take(i as int));
            assert(greedies_of(parts@).take(i + 1).drop_last() == greedies_of(parts@).take(i as int));
        }
        if part.text.as_str().is_empty() {
        } else {
            let line = speaker_line(&span.speaker, &part.text);
            said.push(line);
            assert(texts(said@) == before.0.push(line@));
        }
        if part.greedy.as_str().is_empty() {
        } else {
            let line = speaker_line(&span.speaker, &part.greedy);
            greedy.push(line);
            assert(texts(greedy@) == before.1.push(line@));
        }
        entries.push(
            TranscriptSegment {
                start_ms: span.start_ms,
                end_ms: span.end_ms,
                speaker_id: span.speaker_id,
                speaker: span.speaker.clone(),
                text: part.text.clone(),
                greedy: part.greedy.clone(),
            },
        );
        i += 1;
    }
    assert(names.take(names.len() as int) == names);
    assert(texts_of(parts@).take(parts@.len() as int) == texts_of(parts@));
    assert(greedies_of(parts@).take(parts@.len() as int) == greedies_of(parts@));
    DiarizedTranscript { text: join(&said, "\n"), greedy: join(&greedy, "\n"), segments: entries }
}

/// A silent span adds no line, and a span in which something was said adds
/// one, behind those before it.
pub proof fn lines_follow_the_spans(
    speakers: Seq<Seq<char>>,
    said: Seq<Seq<char>>,
    speaker: Seq<char>,
    words: Seq<char>,
)
    ensures
        speaker_lines(speakers.push(speaker), said.push(words)) == if words.len() == 0 {
            speaker_lines(speakers, said)
        } else {
            speaker_lines(speakers, said).push(speaker + ": "@ + words)
        },
{
    assert(speakers.push(speaker).drop_last() == speakers);
    assert(said.push(words).drop_last() == said);
}

/// Nobody's lines are none.
pub proof fn no_spans_have_no_lines(speakers: Seq<Seq<char>>)
    ensures
        speaker_lines(speakers, Seq::<Seq<char>>::empty()) == Seq::<Seq<char>>::empty(),
{
}

} // verus!
