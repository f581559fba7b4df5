//! Streaming speaker diarization: chunk plan, speaker cache and speaker spans.
//!
//! The diarization graph itself runs outside. It is fed one chunk of features
//! at a time together with a speaker cache and a queue of recent embeddings,
//! and answers with per-speaker probabilities and new embeddings. What is
//! kept, what is dropped and how probabilities become spans is decided here.

use vstd::prelude::*;

use crate::order::{
    among_top, ascending_is_distinct, find_top, order_by, precedes, select_top, superiors,
    top_positions, top_positions_are_complete, Key,
};
use crate::score::{
    above, at_least, greater, greater_or_equal, total_rank, HALF, INFINITY, NEG_INFINITY,
};

verus! {

pub const SAMPLE_RATE: u32 = 16_000;

pub const N_MELS: usize = 128;

pub const N_FFT: usize = 512;

pub const HOP: usize = 160;

pub const WIN_LEN: usize = 400;

pub const STACK: usize = 8;

pub const CHUNK_LEN: usize = 340;

pub const RIGHT_CONTEXT: usize = 40;

pub const CHUNK_INPUT_FRAMES: usize = 3040;

pub const SPKCACHE_LEN: usize = 264;

pub const FIFO_LEN: usize = 40;

pub const EMB_DIM: usize = 512;

pub const SPEAKERS: usize = 8;

pub const FRAME_MS: u64 = 10;

/// How many frames leave the queue at least, once it overflows.
pub const MIN_POP: usize = 300;

/// How many of a speaker's best frames are boosted twice over.
pub const STRONG_BOOST: usize = 24;

/// How many of a speaker's best frames are boosted.
pub const WEAK_BOOST: usize = 48;

/// From how many positive scores on a speaker's other scores are disabled.
pub const MIN_POSITIVE: usize = 16;

/// The pattern of zero.
pub const ZERO: u32 = 0;

// ---------------------------------------------------------------------------
// Speaker spans
// ---------------------------------------------------------------------------

/// A span of time in which one speaker is active.
#[derive(Debug, Clone, Copy, PartialEq, Eq, Structural)]
pub struct Segment {
    pub start_ms: u64,
    pub end_ms: u64,
    pub speaker_id: u32,
}

/// Speaker `s` is active in frame `f`: its probability is at least one half.
pub open spec fn active(preds: Seq<[u32; SPEAKERS]>, s: int, f: int) -> bool {
    at_least(preds[f]@[s], HALF)
}

/// The frames from `begin` up to `end` are a stretch in which speaker `s` is
/// active, and it cannot be extended at either end.
pub open spec fn is_run(preds: Seq<[u32; SPEAKERS]>, s: int, begin: int, end: int) -> bool {
    &&& 0 <= s < SPEAKERS
    &&& 0 <= begin < end <= preds.len()
    &&& forall|f: int| begin <= f < end ==> #[trigger] active(preds, s, f)
    &&& begin > 0 ==> !active(preds, s, begin - 1)
    &&& end < preds.len() ==> !active(preds, s, end)
}

/// `seg` is the span of such a stretch.
pub open spec fn is_span(preds: Seq<[u32; SPEAKERS]>, seg: Segment) -> bool {
    &&& seg.start_ms as int % FRAME_MS as int == 0
    &&& seg.end_ms as int % FRAME_MS as int == 0
    &&& is_run(
        preds,
        seg.speaker_id as int,
        seg.start_ms as int / FRAME_MS as int,
        seg.end_ms as int / FRAME_MS as int,
    )
}

/// `a` comes before `b` by start, end and speaker.
pub open spec fn span_below(a: Segment, b: Segment) -> bool {
    ||| a.start_ms < b.start_ms
    ||| a.start_ms == b.start_ms && a.end_ms < b.end_ms
    ||| a.start_ms == b.start_ms && a.end_ms == b.end_ms && a.speaker_id < b.speaker_id
}

/// The spans of speakers below `s`, and those of speaker `s` that end before
/// frame `f`.
spec fn found(preds: Seq<[u32; SPEAKERS]>, s: int, f: int, seg: Segment) -> bool {
    &&& is_span(preds, seg)
    &&& seg.speaker_id < s || (seg.speaker_id == s && seg.end_ms as int / FRAME_MS as int <= f)
}

/// `list` holds exactly what was found, each span once.
spec fn collected(preds: Seq<[u32; SPEAKERS]>, s: int, f: int, list: Seq<Segment>) -> bool {
    &&& list.no_duplicates()
    &&& forall|seg: Segment| #[trigger] list.contains(seg) <==> found(preds, s, f, seg)
}

/// Adds the stretch from `begin` up to `end` of speaker `s`.
fn push_span(list: &mut Vec<Segment>, preds: &Vec<[u32; SPEAKERS]>, s: usize, begin: usize, end: usize)
    requires
        preds.len() * FRAME_MS <= u64::MAX,
        is_run(preds@, s as int, begin as int, end as int),
        collected(preds@, s as int, end - 1, old(list)@),
    ensures
        collected(preds@, s as int, end as int, final(list)@),
{
    let ghost before = list@;
    let seg = Segment {
        start_ms: begin as u64 * FRAME_MS,
        end_ms: end as u64 * FRAME_MS,
        speaker_id: s as u32,
    };
    list.push(seg);
    proof {
        assert(is_span(preds@, seg));
        assert(!before.contains(seg));
        assert forall|other: Segment| #[trigger] list@.contains(other) <==> found(
            preds@,
            s as int,
            end as int,
            other,
        ) by {
            if list@.contains(other) {
                let k = choose|k: int| 0 <= k < list@.len() && list@[k] == other;
                if k < before.len() {
                    assert(before[k] == other);
                    assert(before.contains(other));
                }
            }
            if found(preds@, s as int, end as int, other) {
                if found(preds@, s as int, end - 1, other) {
                    assert(before.contains(other));
                    let k = choose|k: int| 0 <= k < before.len() && before[k] == other;
                    assert(list@[k] == other);
                } else {
                    let b = other.start_ms as int / FRAME_MS as int;
                    if b < begin {
                        assert(active(preds@, s as int, begin - 1));
                    } else if b > begin {
                        assert(active(preds@, s as int, b - 1));
                    }
                    assert(other == seg);
                    assert(list@[before.len() as int] == other);
                }
            }
        }
    }
}

/// The spans of all speakers, each from the first to behind the last frame of
/// a stretch in which the speaker is active, sorted by start, end and
/// speaker. Spans of different speakers may overlap.
pub fn predictions_to_segments(preds: &Vec<[u32; SPEAKERS]>) -> (out: Vec<Segment>)
    requires
        preds.len() * FRAME_MS <= u64::MAX,
    ensures
        forall|seg: Segment| #[trigger] out@.contains(seg) <==> is_span(preds@, seg),
        forall|i: int, j: int|
            0 <= i < j < out.len() ==> span_below(#[trigger] out@[i], #[trigger] out@[j]),
        forall|s: int, f: int|
            0 <= s < 8 && 0 <= f < preds@.len() ==> (0x3F00_0000 <= #[trigger] preds@[f]@[s]
                <= 0x7F80_0000 <==> exists|i: int|
                0 <= i < out@.len() && (#[trigger] out@[i]).speaker_id == s && out@[i].start_ms <= f
                    * 10 < out@[i].end_ms),
        forall|i: int|
            0 <= i < out@.len() ==> {
                let span = #[trigger] out@[i];
                &&& span.speaker_id < 8
                &&& span.start_ms as int % 10 == 0
                &&& span.end_ms as int % 10 == 0
                &&& span.start_ms < span.end_ms <= 10 * preds@.len()
            },
        forall|i: int, j: int|
            0 <= i < j < out@.len() ==> {
                let (a, b) = (#[trigger] out@[i], #[trigger] out@[j]);
                &&& a.start_ms <= b.start_ms
                &&& a.start_ms == b.start_ms ==> a.end_ms <= b.end_ms
                &&& a.start_ms == b.start_ms && a.end_ms == b.end_ms ==> a.speaker_id < b.speaker_id
                &&& a.speaker_id == b.speaker_id ==> a.end_ms < b.start_ms
            },
{
    let mut list: Vec<Segment> = Vec::new();
    let n: usize = preds.len();
    let mut s: usize = 0;
    while s < SPEAKERS
        invariant
            n == preds.len(),
            preds.len() * FRAME_MS <= u64::MAX,
            s <= SPEAKERS,
            collected(preds@, s as int, 0, list@),
        decreases SPEAKERS - s,
    {
        let mut start: Option<usize> = None;
        let mut f: usize = 0;
        while f < n
            invariant
                n == preds.len(),
                preds.len() * FRAME_MS <= u64::MAX,
                s < SPEAKERS,
                f <= n,
                match start {
                    None => {
                        &&& f > 0 ==> !active(preds@, s as int, f - 1)
                        &&& collected(preds@, s as int, f as int, list@)
                    },
                    Some(begin) => {
                        &&& begin < f
                        &&& forall|g: int| begin <= g < f ==> #[trigger] active(preds@, s as int, g)
                        &&& begin > 0 ==> !active(preds@, s as int, begin - 1)
                        &&& collected(preds@, s as int, f - 1, list@)
                    },
                },
            decreases n - f,
        {
            let on: bool = greater_or_equal(preds[f][s], HALF);
            match start {
                None => {
                    if on {
                        start = Some(f);
                    } else {
                        proof {
                            no_run_ends(preds@, s as int, f as int, list@);
                        }
                    }
                },
                Some(begin) => {
                    if on {
                        proof {
                            no_run_ends(preds@, s as int, f - 1, list@);
                        }
                    } else {
                        push_span(&mut list, preds, s, begin, f);
                        proof {
                            no_run_ends(preds@, s as int, f as int, list@);
                        }
                        start = None;
                    }
                },
            }
            f += 1;
        }
        if let Some(begin) = start {
            push_span(&mut list, preds, s, begin, n);
        }
        proof {
            assert forall|seg: Segment| found(preds@, s as int, n as int, seg) <==> found(
                preds@,
                s + 1,
                0,
                seg,
            ) by {}
        }
        s += 1;
    }
    proof {
        assert forall|seg: Segment| found(preds@, SPEAKERS as int, 0, seg) <==> is_span(preds@, seg) by {}
    }
    let out = sort_spans(&list);
    proof {
        speakers_are_heard_on_their_own(preds@, out@);
    }
    out
}

/// No stretch ends at frame `f + 1` where the speaker is silent in frame `f`
/// or still active in frame `f + 1`.
proof fn no_run_ends(preds: Seq<[u32; SPEAKERS]>, s: int, f: int, list: Seq<Segment>)
    requires
        0 <= s < SPEAKERS,
        0 <= f < preds.len(),
        collected(preds, s, f, list),
        !active(preds, s, f) || (f + 1 < preds.len() && active(preds, s, f + 1)),
    ensures
        collected(preds, s, f + 1, list),
{
    assert forall|seg: Segment| found(preds, s, f, seg) <==> found(preds, s, f + 1, seg) by {
        if found(preds, s, f + 1, seg) && !found(preds, s, f, seg) {
            assert(active(preds, s, f));
        }
    }
}

/// The spans of `list`, sorted by start, end and speaker.
fn sort_spans(list: &Vec<Segment>) -> (out: Vec<Segment>)
    requires
        list@.no_duplicates(),
    ensures
        forall|seg: Segment| #[trigger] out@.contains(seg) <==> list@.contains(seg),
        forall|i: int, j: int|
            0 <= i < j < out.len() ==> span_below(#[trigger] out@[i], #[trigger] out@[j]),
{
    let mut keys: Vec<Key> = Vec::new();
    let mut i: usize = 0;
    while i < list.len()
        invariant
            i <= list.len(),
            keys.len() == i,
            forall|j: int|
                0 <= j < i ==> #[trigger] keys@[j] == (Key {
                    first: list@[j].start_ms,
                    second: list@[j].end_ms,
                    third: list@[j].speaker_id as u64,
                }),
        decreases list.len() - i,
    {
        keys.push(
            Key {
                first: list[i].start_ms,
                second: list[i].end_ms,
                third: list[i].speaker_id as u64,
            },
        );
        i += 1;
    }
    let order = order_by(&keys);
    let mut out: Vec<Segment> = Vec::new();
    let mut p: usize = 0;
    while p < order.len()
        invariant
            p <= order.len(),
            out.len() == p,
            order.len() == list.len(),
            forall|q: int| 0 <= q < order.len() ==> #[trigger] order@[q] < list.len(),
            forall|q: int| 0 <= q < p ==> #[trigger] out@[q] == list@[order@[q] as int],
        decreases order.len() - p,
    {
        out.push(list[order[p]]);
        p += 1;
    }
    proof {
        assert forall|seg: Segment| #[trigger] out@.contains(seg) <==> list@.contains(seg) by {
            if list@.contains(seg) {
                let k = choose|k: int| 0 <= k < list@.len() && list@[k] == seg;
                assert(order@.contains(k as usize));
                let q = choose|q: int| 0 <= q < order@.len() && order@[q] == k as usize;
                assert(out@[q] == seg);
            }
            if out@.contains(seg) {
                let q = choose|q: int| 0 <= q < out@.len() && out@[q] == seg;
                assert(list@[order@[q] as int] == seg);
            }
        }
        ascending_is_distinct(keys@, order@);
        assert forall|i: int, j: int| 0 <= i < j < out.len() implies span_below(
            #[trigger] out@[i],
            #[trigger] out@[j],
        ) by {
            assert(precedes(keys@, order@[i] as int, order@[j] as int));
            if keys@[order@[i] as int] == keys@[order@[j] as int] {
                assert(list@[order@[i] as int] == list@[order@[j] as int]);
            }
        }
    }
    out
}

// ---------------------------------------------------------------------------
// Copying
// ---------------------------------------------------------------------------

/// Appends the items of `from` from position `lo` up to `hi`.
fn append_range<T: Copy>(out: &mut Vec<T>, from: &Vec<T>, lo: usize, hi: usize)
    requires
        lo <= hi <= from.len(),
    ensures
        final(out)@ == old(out)@ + from@.subrange(lo as int, hi as int),
{
    let mut i: usize = lo;
    assert(from@.subrange(lo as int, lo as int) == Seq::<T>::empty());
    while i < hi
        invariant
            lo <= i <= hi <= from.len(),
            out@ == old(out)@ + from@.subrange(lo as int, i as int),
        decreases hi - i,
    {
        out.push(from[i]);
        assert(from@.subrange(lo as int, i + 1) == from@.subrange(lo as int, i as int).push(
            from@[i as int],
        ));
        i += 1;
    }
}

/// The items of `from` from position `lo` up to `hi`.
fn copy_range<T: Copy>(from: &Vec<T>, lo: usize, hi: usize) -> (out: Vec<T>)
    requires
        lo <= hi <= from.len(),
    ensures
        out@ == from@.subrange(lo as int, hi as int),
{
    let mut out: Vec<T> = Vec::new();
    append_range(&mut out, from, lo, hi);
    out
}

/// `data`, filled up with `zero` to `size` items.
pub fn padded<T: Copy>(data: &Vec<T>, size: usize, zero: T) -> (out: Vec<T>)
    requires
        data.len() <= size,
    ensures
        out@ == data@ + Seq::new((size - data.len()) as nat, |i: int| zero),
{
    let mut out: Vec<T> = copy_range(data, 0, data.len());
    let ghost n = data.len();
    while out.len() < size
        invariant
            data.len() == n <= out.len() <= size,
            out@ == data@ + Seq::new((out.len() - n) as nat, |i: int| zero),
        decreases size - out.len(),
    {
        out.push(zero);
    }
    out
}

// ---------------------------------------------------------------------------
// Speaker cache
// ---------------------------------------------------------------------------

/// What the graph is fed beside the features: the speaker cache and the queue
/// of recent frames. Each frame has an embedding of `EMB_DIM` numbers and one
/// probability per speaker.
pub struct State<T> {
    pub cache: Vec<T>,
    pub cache_preds: Vec<[u32; SPEAKERS]>,
    pub cache_len: usize,
    pub fifo: Vec<T>,
    pub fifo_preds: Vec<[u32; SPEAKERS]>,
    pub fifo_len: usize,
    pub compressed: bool,
}

/// How many frames leave a queue of `queued` frames when `added` more arrive.
pub open spec fn popped(queued: int, added: int) -> int {
    if queued + added <= FIFO_LEN {
        0
    } else {
        let kept_back = if added > FIFO_LEN {
            added - FIFO_LEN
        } else {
            0
        };
        let wanted = if kept_back + queued > MIN_POP {
            kept_back + queued
        } else {
            MIN_POP as int
        };
        if wanted < queued + added {
            wanted
        } else {
            queued + added
        }
    }
}

impl<T: Copy> State<T> {
    /// Embeddings and probabilities are there for every frame.
    pub open spec fn wf(&self) -> bool {
        &&& self.cache@.len() == self.cache_len * EMB_DIM
        &&& self.cache_preds@.len() == self.cache_len
        &&& self.fifo@.len() == self.fifo_len * EMB_DIM
        &&& self.fifo_preds@.len() == self.fifo_len
    }

    /// The cache and the queue fit what the graph accepts.
    pub open spec fn fits(&self) -> bool {
        &&& self.wf()
        &&& self.cache_len <= SPKCACHE_LEN
        &&& self.fifo_len <= FIFO_LEN
    }

    /// An empty cache and an empty queue.
    pub fn new() -> (state: Self)
        ensures
            state.fits(),
            state.cache_len == 0,
            state.fifo_len == 0,
            !state.compressed,
    {
        State {
            cache: Vec::new(),
            cache_preds: Vec::new(),
            cache_len: 0,
            fifo: Vec::new(),
            fifo_preds: Vec::new(),
            fifo_len: 0,
            compressed: false,
        }
    }

    /// Takes in the embeddings of `chunk_len` new frames and the graph's
    /// probabilities, which list the frames of the cache, those of the queue
    /// and the new ones. The queue gets its probabilities afresh and the new
    /// frames join it; what then leaves it moves to the cache. Returns whether
    /// the cache has outgrown its limit and is to be compressed.
    pub fn update(&mut self, chunk: &Vec<T>, preds: &Vec<[u32; SPEAKERS]>, chunk_len: usize) -> (full: bool)
        requires
            old(self).wf(),
            chunk@.len() == chunk_len * EMB_DIM,
            old(self).cache_len + old(self).fifo_len + chunk_len <= preds@.len(),
        ensures
            final(self).wf(),
            ({
                let queue = old(self).fifo@ + chunk@;
                let queue_preds = preds@.subrange(
                    old(self).cache_len as int,
                    old(self).cache_len + old(self).fifo_len + chunk_len,
                );
                let out = popped(old(self).fifo_len as int, chunk_len as int);
                &&& final(self).fifo@ == queue.skip(out * EMB_DIM)
                &&& final(self).fifo_preds@ == queue_preds.skip(out)
                &&& final(self).cache@ == old(self).cache@ + queue.take(out * EMB_DIM)
                &&& final(self).cache_preds@ == old(self).cache_preds@ + queue_preds.take(out)
            }),
            final(self).compressed == old(self).compressed,
            full == (final(self).cache_len > SPKCACHE_LEN),
            old(self).fifo_len <= FIFO_LEN ==> final(self).fifo_len <= FIFO_LEN,
    {
        assert(preds@.len() == preds.len());
        let old_cache: usize = self.cache_len;
        let old_fifo: usize = self.fifo_len;
        let total: usize = old_fifo + chunk_len;
        let mut queue: Vec<T> = Vec::new();
        append_range(&mut queue, &self.fifo, 0, self.fifo.len());
        append_range(&mut queue, chunk, 0, chunk.len());
        assert(self.fifo@.subrange(0, self.fifo@.len() as int) == self.fifo@);
        assert(chunk@.subrange(0, chunk@.len() as int) == chunk@);
        assert(queue@ == self.fifo@ + chunk@);
        let queue_preds = copy_range(preds, old_cache, old_cache + total);
        let out: usize = if total <= FIFO_LEN {
            0
        } else {
            let kept_back: usize = if chunk_len > FIFO_LEN {
                chunk_len - FIFO_LEN
            } else {
                0
            };
            let wanted: usize = if kept_back + old_fifo > MIN_POP {
                kept_back + old_fifo
            } else {
                MIN_POP
            };
            if wanted < total {
                wanted
            } else {
                total
            }
        };
        assert(out == popped(old_fifo as int, chunk_len as int));
        assert(queue.len() == total * EMB_DIM);
        append_range(&mut self.cache, &queue, 0, out * EMB_DIM);
        append_range(&mut self.cache_preds, &queue_preds, 0, out);
        self.fifo = copy_range(&queue, out * EMB_DIM, queue.len());
        self.fifo_preds = copy_range(&queue_preds, out, total);
        proof {
            assert(queue@.subrange(0, out * EMB_DIM) == queue@.take(out * EMB_DIM));
            assert(queue@.subrange(out * EMB_DIM, queue@.len() as int) == queue@.skip(out * EMB_DIM));
            assert(queue_preds@.subrange(0, out as int) == queue_preds@.take(out as int));
            assert(queue_preds@.subrange(out as int, total as int) == queue_preds@.skip(out as int));
        }
        self.fifo_len = total - out;
        self.cache_len = old_cache + out;
        self.cache_len > SPKCACHE_LEN
    }
}

/// One speaker's scores for every frame of the cache: as they are, and as
/// they become when boosted by the strong step, by the weak step and by both.
pub struct SpeakerScores {
    pub base: Vec<u32>,
    pub strong: Vec<u32>,
    pub weak: Vec<u32>,
    pub both: Vec<u32>,
}

impl SpeakerScores {
    /// There is a score for each of `n` frames.
    pub open spec fn covers(&self, n: nat) -> bool {
        &&& self.base@.len() == n
        &&& self.strong@.len() == n
        &&& self.weak@.len() == n
        &&& self.both@.len() == n
    }
}

/// Whether frame `t` of a cache that has outgrown its limit is beyond it, and
/// so has come in since the cache was compressed last. Such frames score
/// higher.
pub fn is_recent(t: usize) -> (b: bool)
    ensures
        b == (t >= SPKCACHE_LEN),
        b == (t >= 264),
{
    t >= SPKCACHE_LEN
}

/// Speaker `s` is more likely than not in frame `t`.
pub open spec fn confident(preds: Seq<[u32; SPEAKERS]>, s: int, t: int) -> bool {
    above(preds[t]@[s], HALF)
}

/// How many of the frames that speaker `s` is likely in have a positive score.
pub open spec fn positives(preds: Seq<[u32; SPEAKERS]>, base: Seq<u32>, s: int, n: int) -> int
    decreases n,
{
    if n <= 0 {
        0
    } else {
        positives(preds, base, s, n - 1) + if confident(preds, s, n - 1) && above(base[n - 1], ZERO) {
            1int
        } else {
            0
        }
    }
}

/// Frame `t` can be kept for speaker `s`: the speaker is likely in it, and its
/// score is not disabled. Scores of zero or less are disabled once there are
/// enough positive ones.
pub open spec fn live(preds: Seq<[u32; SPEAKERS]>, base: Seq<u32>, s: int, t: int) -> bool {
    &&& confident(preds, s, t)
    &&& !(positives(preds, base, s, preds.len() as int) >= MIN_POSITIVE && at_least(ZERO, base[t]))
}

/// The scores of speaker `s`, with those that cannot be kept at the bottom.
pub open spec fn enabled(preds: Seq<[u32; SPEAKERS]>, base: Seq<u32>, s: int) -> Seq<u32> {
    Seq::new(
        preds.len(),
        |t: int|
            if live(preds, base, s, t) {
                base[t]
            } else {
                NEG_INFINITY
            },
    )
}

/// Frame `t` is among the frames of speaker `s` that get the strong boost.
pub open spec fn strongly_boosted(preds: Seq<[u32; SPEAKERS]>, scores: SpeakerScores, s: int, t: int) -> bool {
    among_top(enabled(preds, scores.base@, s), STRONG_BOOST as nat, t)
}

/// The scores of speaker `s` behind the strong boost.
pub open spec fn boosted_once(preds: Seq<[u32; SPEAKERS]>, scores: SpeakerScores, s: int) -> Seq<u32> {
    Seq::new(
        preds.len(),
        |t: int|
            if !live(preds, scores.base@, s, t) {
                NEG_INFINITY
            } else if strongly_boosted(preds, scores, s, t) {
                scores.strong@[t]
            } else {
                scores.base@[t]
            },
    )
}

/// Frame `t` is among the frames of speaker `s` that get the weak boost.
pub open spec fn weakly_boosted(preds: Seq<[u32; SPEAKERS]>, scores: SpeakerScores, s: int, t: int) -> bool {
    among_top(boosted_once(preds, scores, s), WEAK_BOOST as nat, t)
}

/// The scores of speaker `s` behind both boosts.
pub open spec fn boosted(preds: Seq<[u32; SPEAKERS]>, scores: SpeakerScores, s: int) -> Seq<u32> {
    Seq::new(
        preds.len(),
        |t: int|
            if !live(preds, scores.base@, s, t) {
                NEG_INFINITY
            } else {
                match (strongly_boosted(preds, scores, s, t), weakly_boosted(preds, scores, s, t)) {
                    (true, true) => scores.both@[t],
                    (true, false) => scores.strong@[t],
                    (false, true) => scores.weak@[t],
                    (false, false) => scores.base@[t],
                }
            },
    )
}

/// The candidates for the cache, speaker by speaker: each speaker's frames in
/// order of time, and behind them one of silence, which ranks above all.
pub open spec fn candidates(preds: Seq<[u32; SPEAKERS]>, table: Seq<SpeakerScores>) -> Seq<u32> {
    let width = preds.len() as int + 1;
    Seq::new(
        (SPEAKERS * width) as nat,
        |c: int|
            if c % width == preds.len() {
                INFINITY
            } else {
                boosted(preds, table[c / width], c / width)[c % width]
            },
    )
}

/// The frame that each kept candidate stands for, where the number of frames
/// stands for silence.
pub open spec fn kept_frames(preds: Seq<[u32; SPEAKERS]>, table: Seq<SpeakerScores>) -> Seq<int> {
    let kept = top_positions(candidates(preds, table), SPKCACHE_LEN as nat);
    Seq::new(kept.len(), |k: int| kept[k] as int % (preds.len() as int + 1))
}

/// Speaker `s` has its own scores for every frame.
spec fn complete(table: Seq<SpeakerScores>, n: nat) -> bool {
    &&& table.len() == SPEAKERS
    &&& forall|s: int| 0 <= s < SPEAKERS ==> (#[trigger] table[s]).covers(n)
}

/// Which frames can be kept for speaker `s`.
fn live_frames(preds: &Vec<[u32; SPEAKERS]>, base: &Vec<u32>, s: usize) -> (out: Vec<bool>)
    requires
        s < SPEAKERS,
        base@.len() == preds@.len(),
    ensures
        out@ == Seq::new(preds@.len(), |t: int| live(preds@, base@, s as int, t)),
{
    let n: usize = preds.len();
    let mut count: usize = 0;
    let mut t: usize = 0;
    while t < n
        invariant
            s < SPEAKERS,
            n == preds.len() == base.len(),
            t <= n,
            count <= t,
            count == positives(preds@, base@, s as int, t as int),
        decreases n - t,
    {
        if greater(preds[t][s], HALF) && greater(base[t], ZERO) {
            count += 1;
        }
        t += 1;
    }
    let mut out: Vec<bool> = Vec::new();
    let mut t: usize = 0;
    while t < n
        invariant
            s < SPEAKERS,
            n == preds.len() == base.len(),
            t <= n,
            count == positives(preds@, base@, s as int, n as int),
            out.len() == t,
            forall|u: int| 0 <= u < t ==> #[trigger] out@[u] == live(preds@, base@, s as int, u),
        decreases n - t,
    {
        out.push(
            greater(preds[t][s], HALF) && !(count >= MIN_POSITIVE && greater_or_equal(ZERO, base[t])),
        );
        t += 1;
    }
    out
}

/// The scores of speaker `s` behind both boosts.
fn boost(preds: &Vec<[u32; SPEAKERS]>, scores: &SpeakerScores, s: usize) -> (out: Vec<u32>)
    requires
        s < SPEAKERS,
        scores.covers(preds@.len()),
    ensures
        out@ == boosted(preds@, *scores, s as int),
{
    let n: usize = preds.len();
    let alive = live_frames(preds, &scores.base, s);
    let mut first: Vec<u32> = Vec::new();
    let mut t: usize = 0;
    while t < n
        invariant
            n == preds.len(),
            t <= n,
            scores.covers(n as nat),
            alive@ == Seq::new(n as nat, |t: int| live(preds@, scores.base@, s as int, t)),
            first@ == enabled(preds@, scores.base@, s as int).take(t as int),
        decreases n - t,
    {
        first.push(
            if alive[t] {
                scores.base[t]
            } else {
                NEG_INFINITY
            },
        );
        t += 1;
    }
    assert(first@ == enabled(preds@, scores.base@, s as int));
    let strong = select_top(&first, STRONG_BOOST);
    let mut second: Vec<u32> = Vec::new();
    let mut t: usize = 0;
    while t < n
        invariant
            n == preds.len(),
            t <= n,
            scores.covers(n as nat),
            alive@ == Seq::new(n as nat, |t: int| live(preds@, scores.base@, s as int, t)),
            strong.len() == n,
            forall|u: int|
                0 <= u < n ==> #[trigger] strong@[u] == strongly_boosted(preds@, *scores, s as int, u),
            second@ == boosted_once(preds@, *scores, s as int).take(t as int),
        decreases n - t,
    {
        second.push(
            if !alive[t] {
                NEG_INFINITY
            } else if strong[t] {
                scores.strong[t]
            } else {
                scores.base[t]
            },
        );
        assert(strong@[t as int] == strongly_boosted(preds@, *scores, s as int, t as int));
        t += 1;
    }
    assert(second@ == boosted_once(preds@, *scores, s as int));
    let weak = select_top(&second, WEAK_BOOST);
    let mut out: Vec<u32> = Vec::new();
    let mut t: usize = 0;
    while t < n
        invariant
            n == preds.len(),
            t <= n,
            scores.covers(n as nat),
            alive@ == Seq::new(n as nat, |t: int| live(preds@, scores.base@, s as int, t)),
            strong.len() == n,
            weak.len() == n,
            forall|u: int|
                0 <= u < n ==> #[trigger] strong@[u] == strongly_boosted(preds@, *scores, s as int, u),
            forall|u: int|
                0 <= u < n ==> #[trigger] weak@[u] == weakly_boosted(preds@, *scores, s as int, u),
            out@ == boosted(preds@, *scores, s as int).take(t as int),
        decreases n - t,
    {
        out.push(
            if !alive[t] {
                NEG_INFINITY
            } else if strong[t] {
                if weak[t] {
                    scores.both[t]
                } else {
                    scores.strong[t]
                }
            } else if weak[t] {
                scores.weak[t]
            } else {
                scores.base[t]
            },
        );
        assert(strong@[t as int] == strongly_boosted(preds@, *scores, s as int, t as int));
        assert(weak@[t as int] == weakly_boosted(preds@, *scores, s as int, t as int));
        t += 1;
    }
    assert(out@ == boosted(preds@, *scores, s as int));
    out
}

/// The scores of all candidates.
fn list_candidates(preds: &Vec<[u32; SPEAKERS]>, table: &Vec<SpeakerScores>) -> (out: Vec<u32>)
    requires
        complete(table@, preds@.len()),
    ensures
        out@ == candidates(preds@, table@),
{
    let n: usize = preds.len();
    let ghost width = n + 1;
    let mut out: Vec<u32> = Vec::new();
    let mut s: usize = 0;
    let ghost all = candidates(preds@, table@);
    while s < SPEAKERS
        invariant
            n == preds.len(),
            width == n + 1,
            complete(table@, n as nat),
            s <= SPEAKERS,
            all == candidates(preds@, table@),
            out@.len() == s * width,
            out@ == all.take(out@.len() as int),
        decreases SPEAKERS - s,
    {
        assert(table@[s as int].covers(n as nat));
        let mine = boost(preds, &table[s], s);
        let mut t: usize = 0;
        while t < n
            invariant
                n == preds.len(),
                width == n + 1,
                s < SPEAKERS,
                t <= n,
                mine@ == boosted(preds@, table@[s as int], s as int),
                all == candidates(preds@, table@),
                out@.len() == s * width + t,
                out@ == all.take(out@.len() as int),
            decreases n - t,
        {
            proof {
                candidate_position(s as int, t as int, width);
            }
            assert(all[s * width + t] == mine@[t as int]);
            out.push(mine[t]);
            assert(out@ == all.take(out@.len() as int));
            t += 1;
        }
        proof {
            candidate_position(s as int, n as int, width);
        }
        assert(all[s * width + n] == INFINITY);
        out.push(INFINITY);
        assert(out@ == all.take(out@.len() as int));
        assert((s + 1) * width == s * width + width) by (nonlinear_arith);
        s += 1;
    }
    assert(all.take(all.len() as int) == all);
    out
}

/// The candidate at `s * width + t` is entry `t` of speaker `s`.
proof fn candidate_position(s: int, t: int, width: int)
    requires
        0 <= s < SPEAKERS,
        0 <= t < width,
    ensures
        (s * width + t) / width == s,
        (s * width + t) % width == t,
        0 <= s * width + t < SPEAKERS * width,
{
    vstd::arithmetic::div_mod::lemma_fundamental_div_mod_converse(s * width + t, width, s, t);
    assert(0 <= s * width + t < SPEAKERS * width) by (nonlinear_arith)
        requires
            0 <= s < SPEAKERS,
            0 <= t < width,
    ;
}

/// The cache of `after` holds what is kept of the cache of `before`: for each
/// kept candidate the embedding and the probabilities of its frame, and for
/// silence the given embedding and no probability.
pub open spec fn is_compression<T: Copy>(
    before: State<T>,
    silence: Seq<T>,
    table: Seq<SpeakerScores>,
    after: State<T>,
) -> bool {
    let n = before.cache_len as int;
    let frames = kept_frames(before.cache_preds@, table);
    &&& after.cache@ == Seq::new(
        (SPKCACHE_LEN * EMB_DIM) as nat,
        |x: int|
            {
                let t = frames[x / EMB_DIM as int];
                if t == n {
                    silence[x % EMB_DIM as int]
                } else {
                    before.cache@[t * EMB_DIM + x % EMB_DIM as int]
                }
            },
    )
    &&& forall|k: int, s: int|
        0 <= k < SPKCACHE_LEN && 0 <= s < SPEAKERS ==> #[trigger] after.cache_preds@[k]@[s]
            == if frames[k] == n {
            ZERO
        } else {
            before.cache_preds@[frames[k]]@[s]
        }
}

impl<T: Copy> State<T> {
    /// Shrinks the cache to its limit. Of all candidates (every frame for
    /// every speaker, and one of silence per speaker) the highest are kept,
    /// speaker by speaker and in order of time, with the frame's embedding and
    /// probabilities. Silence has the given embedding and no probability.
    pub fn compress(&mut self, silence: &Vec<T>, table: &Vec<SpeakerScores>)
        requires
            old(self).wf(),
            silence@.len() == EMB_DIM,
            old(self).cache_len * SPEAKERS + SPEAKERS >= SPKCACHE_LEN,
            table@.len() == SPEAKERS,
            forall|s: int|
                0 <= s < SPEAKERS ==> (#[trigger] table@[s]).covers(old(self).cache_len as nat),
        ensures
            final(self).wf(),
            final(self).cache_len == SPKCACHE_LEN,
            final(self).compressed,
            old(self).fifo_len <= FIFO_LEN ==> final(self).fits(),
            final(self).fifo == old(self).fifo,
            final(self).fifo_preds == old(self).fifo_preds,
            final(self).fifo_len == old(self).fifo_len,
            is_compression(*old(self), silence@, table@, *final(self)),
            final(self).cache@.len() == 264 * 512,
            forall|k: int, d: int|
                #![trigger final(self).cache@[k * 512 + d]]
                0 <= k < 264 && 0 <= d < 512 ==> {
                    let t = kept_frames(old(self).cache_preds@, table@)[k];
                    &&& t == old(self).cache_len ==> final(self).cache@[k * 512 + d] == silence@[d]
                    &&& t != old(self).cache_len ==> final(self).cache@[k * 512 + d] == old(self).cache@[t * 512 + d]
                },
            forall|k: int, s: int|
                0 <= k < 264 && 0 <= s < 8 ==> {
                    let t = kept_frames(old(self).cache_preds@, table@)[k];
                    let new = #[trigger] final(self).cache_preds@[k]@[s];
                    &&& t == old(self).cache_len ==> new == 0
                    &&& t != old(self).cache_len ==> new == old(self).cache_preds@[t]@[s]
                },
    {
        let n: usize = self.cache_len;
        assert(self.cache.len() == n * EMB_DIM);
        let scores = list_candidates(&self.cache_preds, table);
        let kept = find_top(&scores, SPKCACHE_LEN);
        let ghost frames = kept_frames(self.cache_preds@, table@);
        proof {
            assert(scores.len() == scores@.len());
            top_positions_are_complete(scores@, SPKCACHE_LEN as nat);
            assert(kept@.len() == SPKCACHE_LEN);
        }
        let mut next: Vec<T> = Vec::new();
        let mut next_preds: Vec<[u32; SPEAKERS]> = Vec::new();
        let mut k: usize = 0;
        while k < SPKCACHE_LEN
            invariant
                self.cache == old(self).cache,
                self.cache_preds == old(self).cache_preds,
                self.fifo == old(self).fifo,
                self.fifo_preds == old(self).fifo_preds,
                self.fifo_len == old(self).fifo_len,
                old(self).wf(),
                n == old(self).cache_len,
                self.cache.len() == n * EMB_DIM,
                silence@.len() == EMB_DIM,
                kept@.len() == SPKCACHE_LEN,
                kept@ == top_positions(
                    candidates(old(self).cache_preds@, table@),
                    SPKCACHE_LEN as nat,
                ),
                frames == kept_frames(old(self).cache_preds@, table@),
                k <= SPKCACHE_LEN,
                next@.len() == k * EMB_DIM,
                next_preds@.len() == k,
                forall|x: int|
                    0 <= x < next@.len() ==> #[trigger] next@[x] == {
                        let t = frames[x / EMB_DIM as int];
                        if t == n {
                            silence@[x % EMB_DIM as int]
                        } else {
                            old(self).cache@[t * EMB_DIM + x % EMB_DIM as int]
                        }
                    },
                forall|j: int, s: int|
                    0 <= j < k && 0 <= s < SPEAKERS ==> #[trigger] next_preds@[j]@[s] == if frames[j]
                        == n {
                        ZERO
                    } else {
                        old(self).cache_preds@[frames[j]]@[s]
                    },
            decreases SPKCACHE_LEN - k,
        {
            let t: usize = kept[k] % (n + 1);
            assert(t == frames[k as int]);
            let ghost before = next@;
            if t == n {
                append_range(&mut next, silence, 0, EMB_DIM);
                next_preds.push([ZERO; SPEAKERS]);
            } else {
                append_range(&mut next, &self.cache, t * EMB_DIM, (t + 1) * EMB_DIM);
                next_preds.push(self.cache_preds[t]);
            }
            proof {
                assert forall|x: int| 0 <= x < next@.len() implies #[trigger] next@[x] == {
                    let t = frames[x / EMB_DIM as int];
                    if t == n {
                        silence@[x % EMB_DIM as int]
                    } else {
                        old(self).cache@[t * EMB_DIM + x % EMB_DIM as int]
                    }
                } by {
                    if x < before.len() {
                        assert(next@[x] == before[x]);
                    } else {
                        assert(x / EMB_DIM as int == k);
                        assert(x % EMB_DIM as int == x - before.len());
                    }
                }
            }
            k += 1;
        }
        self.cache = next;
        self.cache_preds = next_preds;
        self.cache_len = SPKCACHE_LEN;
        self.compressed = true;
        assert(self.cache@ == Seq::new(
            (SPKCACHE_LEN * EMB_DIM) as nat,
            |x: int|
                {
                    let t = frames[x / EMB_DIM as int];
                    if t == old(self).cache_len as int {
                        silence@[x % EMB_DIM as int]
                    } else {
                        old(self).cache@[t * EMB_DIM + x % EMB_DIM as int]
                    }
                },
        ));
    }
}

// ---------------------------------------------------------------------------
// Features
// ---------------------------------------------------------------------------

/// The samples under the analysis window of one frame. The window is centred
/// on every `HOP`th sample, and beyond the signal there is `zero`.
pub fn centered_frame<T: Copy>(signal: &Vec<T>, frame: usize, zero: T) -> (out: Vec<T>)
    requires
        frame * HOP + N_FFT <= usize::MAX,
    ensures
        out@ == Seq::new(
            N_FFT as nat,
            |j: int|
                {
                    let at = frame * HOP + j - N_FFT as int / 2;
                    if 0 <= at < signal@.len() {
                        signal@[at]
                    } else {
                        zero
                    }
                },
        ),
{
    let mut out: Vec<T> = Vec::new();
    let mut j: usize = 0;
    while j < N_FFT
        invariant
            frame * HOP + N_FFT <= usize::MAX,
            j <= N_FFT,
            out@.len() == j,
            forall|i: int|
                0 <= i < j ==> #[trigger] out@[i] == {
                    let at = frame * HOP + i - N_FFT as int / 2;
                    if 0 <= at < signal@.len() {
                        signal@[at]
                    } else {
                        zero
                    }
                },
        decreases N_FFT - j,
    {
        let shifted: usize = frame * HOP + j;
        let inside: bool = shifted >= N_FFT / 2 && shifted - N_FFT / 2 < signal.len();
        out.push(
            if inside {
                signal[shifted - N_FFT / 2]
            } else {
                zero
            },
        );
        j += 1;
    }
    out
}

// ---------------------------------------------------------------------------
// Chunks
// ---------------------------------------------------------------------------

/// One step through the features.
#[derive(Debug, Clone, Copy, PartialEq, Eq)]
pub struct ChunkPlan {
    /// The first frame of the chunk.
    pub start: usize,
    /// The frame behind the last one that the step is for.
    pub core_end: usize,
    /// How many frames are fed, those of the right context among them.
    pub raw_len: usize,
    /// How many stacked frames the step is for.
    pub core_emb_len: usize,
}

/// The smaller of two numbers.
pub open spec fn smaller(a: int, b: int) -> int {
    if a < b {
        a
    } else {
        b
    }
}

/// How many stacks `frames` frames take.
pub open spec fn stacks(frames: int) -> int {
    (frames + STACK - 1) / STACK as int
}

/// The frame behind the chunk that begins at `start`.
pub open spec fn core_end(start: int, total: int) -> int {
    smaller(start + CHUNK_LEN * STACK, total)
}

/// How many frames of right context the chunk that begins at `start` has.
pub open spec fn right_context(start: int, total: int) -> int {
    smaller((RIGHT_CONTEXT * STACK) as int, total - core_end(start, total))
}

/// The chunk that begins at frame `start` of `total`: up to `CHUNK_LEN` stacks
/// of frames, with as many more to their right as the graph looks ahead, where
/// there are so many.
pub fn plan_chunk(start: usize, total: usize) -> (plan: ChunkPlan)
    requires
        start < total,
    ensures
        plan.start == start,
        plan.core_end == core_end(start as int, total as int),
        plan.raw_len == plan.core_end - start + right_context(start as int, total as int),
        plan.core_emb_len == stacks(plan.core_end - start),
        start < plan.core_end <= total,
        plan.raw_len <= CHUNK_INPUT_FRAMES,
        start + plan.raw_len <= total,
        plan.core_emb_len <= CHUNK_LEN,
        total - start > 2720 ==> plan.core_end == start + 2720,
        total - start <= 2720 ==> plan.core_end == total,
        total - plan.core_end > 320 ==> plan.raw_len == plan.core_end - start + 320,
        total - plan.core_end <= 320 ==> plan.raw_len == total - start,
        8 * plan.core_emb_len >= plan.core_end - start,
        8 * plan.core_emb_len < plan.core_end - start + 8,
{
    let core: usize = if CHUNK_LEN * STACK < total - start {
        start + CHUNK_LEN * STACK
    } else {
        total
    };
    let right: usize = if RIGHT_CONTEXT * STACK < total - core {
        RIGHT_CONTEXT * STACK
    } else {
        total - core
    };
    let raw_len: usize = core - start + right;
    let emb_len: usize = (raw_len + STACK - 1) / STACK;
    let right_len: usize = (right + STACK - 1) / STACK;
    let core_emb_len: usize = if emb_len > right_len {
        emb_len - right_len
    } else {
        0
    };
    ChunkPlan { start, core_end: core, raw_len, core_emb_len }
}

/// The features that a chunk feeds, time by time, filled up with `zero`.
pub fn chunk_input<T: Copy>(frames: &Vec<T>, start: usize, raw_len: usize, zero: T) -> (out: Vec<T>)
    requires
        raw_len <= CHUNK_INPUT_FRAMES,
        (start + raw_len) * N_MELS <= frames@.len(),
    ensures
        out@ == frames@.subrange(start * N_MELS, (start + raw_len) * N_MELS) + Seq::new(
            ((CHUNK_INPUT_FRAMES - raw_len) * N_MELS) as nat,
            |i: int| zero,
        ),
{
    assert((start + raw_len) * N_MELS <= frames.len());
    let data = copy_range(frames, start * N_MELS, (start + raw_len) * N_MELS);
    padded(&data, CHUNK_INPUT_FRAMES * N_MELS, zero)
}

/// Why the graph's answer cannot be used.
#[derive(Debug, Clone, Copy, PartialEq, Eq)]
pub enum GraphError {
    /// It announces more embeddings than it gives.
    EmbeddingLength,
}

/// Checks that as many embeddings as announced are there. A missing or
/// negative number announces none.
pub fn check_embedding_len(announced: Option<i64>, given: usize) -> (r: Result<(), GraphError>)
    ensures
        r is Ok <==> (match announced {
            Some(v) => v * EMB_DIM <= given,
            None => true,
        }),
{
    let wanted: i64 = match announced {
        Some(v) => v,
        None => 0,
    };
    if wanted > 0 && wanted as u64 > (given / EMB_DIM) as u64 {
        Err(GraphError::EmbeddingLength)
    } else {
        Ok(())
    }
}

/// A pass over the features of one recording.
pub struct Session<T> {
    pub state: State<T>,
    /// The next frame to feed.
    pub start: usize,
    /// The probabilities so far, one row per frame.
    pub preds: Vec<[u32; SPEAKERS]>,
}

impl<T: Copy> Session<T> {
    /// The beginning of a recording.
    pub fn new() -> (session: Self)
        ensures
            session.state.fits(),
            session.state.cache_len == 0,
            session.state.fifo_len == 0,
            session.start == 0,
            session.preds@.len() == 0,
    {
        Session { state: State::new(), start: 0, preds: Vec::new() }
    }

    /// The next chunk, or none where all `total` frames have been fed.
    pub fn next_chunk(&self, total: usize) -> (plan: Option<ChunkPlan>)
        ensures
            plan is None <==> self.start >= total,
            plan matches Some(p) ==> {
                &&& p.start == self.start
                &&& p.core_end == core_end(self.start as int, total as int)
                &&& p.raw_len == p.core_end - p.start + right_context(self.start as int, total as int)
                &&& p.core_emb_len == stacks(p.core_end - p.start)
            },
    {
        if self.start < total {
            Some(plan_chunk(self.start, total))
        } else {
            None
        }
    }

    /// Takes in the graph's answer to a chunk. Of the fine-grained
    /// probabilities, those of the chunk's own frames are added to the result;
    /// they follow those of the cache and the queue. Cache and queue take in
    /// the chunk. Returns whether the cache is to be compressed.
    pub fn absorb(
        &mut self,
        plan: ChunkPlan,
        state_preds: &Vec<[u32; SPEAKERS]>,
        highres: &Vec<[u32; SPEAKERS]>,
        embeddings: &Vec<T>,
    ) -> (full: bool)
        requires
            old(self).state.fits(),
            plan.core_emb_len * EMB_DIM <= embeddings@.len(),
            old(self).state.cache_len + old(self).state.fifo_len + plan.core_emb_len
                <= state_preds@.len(),
            (old(self).state.cache_len + old(self).state.fifo_len + plan.core_emb_len) * STACK
                <= highres@.len(),
        ensures
            final(self).start == plan.core_end,
            ({
                let base = old(self).state.cache_len + old(self).state.fifo_len;
                final(self).preds@ == old(self).preds@ + highres@.subrange(
                    base * STACK,
                    (base + plan.core_emb_len) * STACK,
                )
            }),
            final(self).state.wf(),
            ({
                let before = old(self).state;
                let queue = before.fifo@ + embeddings@.take(plan.core_emb_len * EMB_DIM);
                let queue_preds = state_preds@.subrange(
                    before.cache_len as int,
                    before.cache_len + before.fifo_len + plan.core_emb_len,
                );
                let out = popped(before.fifo_len as int, plan.core_emb_len as int);
                &&& final(self).state.fifo@ == queue.skip(out * EMB_DIM)
                &&& final(self).state.fifo_preds@ == queue_preds.skip(out)
                &&& final(self).state.cache@ == before.cache@ + queue.take(out * EMB_DIM)
                &&& final(self).state.cache_preds@ == before.cache_preds@ + queue_preds.take(out)
            }),
            final(self).state.compressed == old(self).state.compressed,
            final(self).state.fifo_len <= FIFO_LEN,
            full == (final(self).state.cache_len > SPKCACHE_LEN),
            !full ==> final(self).state.fits(),
    {
        let base: usize = self.state.cache_len + self.state.fifo_len;
        assert(embeddings@.len() == embeddings.len());
        assert(highres@.len() == highres.len());
        append_range(&mut self.preds, highres, base * STACK, (base + plan.core_emb_len) * STACK);
        let chunk = copy_range(embeddings, 0, plan.core_emb_len * EMB_DIM);
        assert(chunk@ == embeddings@.take(plan.core_emb_len * EMB_DIM));
        self.start = plan.core_end;
        self.state.update(&chunk, state_preds, plan.core_emb_len)
    }

    /// The spans of the recording.
    pub fn finish(&self) -> (out: Vec<Segment>)
        requires
            self.preds@.len() * FRAME_MS <= u64::MAX,
        ensures
            forall|seg: Segment| #[trigger] out@.contains(seg) <==> is_span(self.preds@, seg),
            forall|i: int, j: int|
                0 <= i < j < out.len() ==> span_below(#[trigger] out@[i], #[trigger] out@[j]),
            forall|s: int, f: int|
                0 <= s < 8 && 0 <= f < self.preds@.len() ==> (0x3F00_0000 <= #[trigger] self.preds@[f]@[s]
                    <= 0x7F80_0000 <==> exists|i: int|
                    0 <= i < out@.len() && (#[trigger] out@[i]).speaker_id == s && out@[i].start_ms <= f
                        * 10 < out@[i].end_ms),
            forall|i: int|
                0 <= i < out@.len() ==> {
                    let span = #[trigger] out@[i];
                    &&& span.speaker_id < 8
                    &&& span.start_ms as int % 10 == 0
                    &&& span.end_ms as int % 10 == 0
                    &&& span.start_ms < span.end_ms <= 10 * self.preds@.len()
                },
            forall|i: int, j: int|
                0 <= i < j < out@.len() ==> {
                    let (a, b) = (#[trigger] out@[i], #[trigger] out@[j]);
                    &&& a.start_ms <= b.start_ms
                    &&& a.start_ms == b.start_ms ==> a.end_ms <= b.end_ms
                    &&& a.start_ms == b.start_ms && a.end_ms == b.end_ms ==> a.speaker_id < b.speaker_id
                    &&& a.speaker_id == b.speaker_id ==> a.end_ms < b.start_ms
                },
    {
        predictions_to_segments(&self.preds)
    }
}

/// The four-byte little-endian patterns of `bytes`.
pub open spec fn patterns(bytes: Seq<u8>) -> Seq<u32> {
    Seq::new(
        bytes.len() / 4,
        |i: int|
            (bytes[4 * i] + 0x100 * bytes[4 * i + 1] + 0x1_0000 * bytes[4 * i + 2] + 0x100_0000
                * bytes[4 * i + 3]) as u32,
    )
}

/// Why the silence embedding cannot be used.
#[derive(Debug, Clone, Copy, PartialEq, Eq)]
pub enum SidecarError {
    /// It has this many bytes, and not four per number.
    Size(usize),
}

/// The silence embedding that the bytes of its file hold. Without the file it
/// is zero.
pub fn silence_embedding(file: Option<&Vec<u8>>) -> (r: Result<Vec<u32>, SidecarError>)
    ensures
        match file {
            None => r matches Ok(v) && v@ == Seq::new(EMB_DIM as nat, |i: int| ZERO),
            Some(bytes) => if bytes@.len() == EMB_DIM * 4 {
                r matches Ok(v) && v@ == patterns(bytes@)
            } else {
                r matches Err(e) && e == SidecarError::Size(bytes.len())
            },
        },
{
    let mut out: Vec<u32> = Vec::new();
    match file {
        None => {
            let empty: Vec<u32> = Vec::new();
            let out = padded(&empty, EMB_DIM, ZERO);
            assert(out@ == Seq::new(EMB_DIM as nat, |i: int| ZERO));
            Ok(out)
        },
        Some(bytes) => {
            if bytes.len() != EMB_DIM * 4 {
                return Err(SidecarError::Size(bytes.len()));
            }
            let mut i: usize = 0;
            while i < EMB_DIM
                invariant
                    bytes@.len() == EMB_DIM * 4,
                    i <= EMB_DIM,
                    out@ == patterns(bytes@).take(i as int),
                decreases EMB_DIM - i,
            {
                let word: u32 = bytes[4 * i] as u32 + 0x100 * bytes[4 * i + 1] as u32 + 0x1_0000
                    * bytes[4 * i + 2] as u32 + 0x100_0000 * bytes[4 * i + 3] as u32;
                out.push(word);
                i += 1;
            }
            assert(patterns(bytes@).take(EMB_DIM as int) == patterns(bytes@));
            Ok(out)
        },
    }
}

// ---------------------------------------------------------------------------
// Laws
// ---------------------------------------------------------------------------

/// A speaker is heard by its own probability alone: some span of a speaker
/// covers a frame exactly where that speaker's probability there is at least one
/// half, whoever else is heard. Spans are whole frames of the recording, in
/// order of start, end and speaker, and those of one speaker do not touch.
pub proof fn speakers_are_heard_on_their_own(preds: Seq<[u32; SPEAKERS]>, out: Seq<Segment>)
    requires
        preds.len() * FRAME_MS <= u64::MAX,
        forall|seg: Segment| #[trigger] out.contains(seg) <==> is_span(preds, seg),
        forall|i: int, j: int| 0 <= i < j < out.len() ==> span_below(#[trigger] out[i], #[trigger] out[j]),
    ensures
        forall|s: int, f: int|
            0 <= s < 8 && 0 <= f < preds.len() ==> (0x3F00_0000 <= #[trigger] preds[f]@[s]
                <= 0x7F80_0000 <==> exists|i: int|
                0 <= i < out.len() && (#[trigger] out[i]).speaker_id == s && out[i].start_ms <= f
                    * 10 < out[i].end_ms),
        forall|i: int|
            0 <= i < out.len() ==> {
                let span = #[trigger] out[i];
                &&& span.speaker_id < 8
                &&& span.start_ms as int % 10 == 0
                &&& span.end_ms as int % 10 == 0
                &&& span.start_ms < span.end_ms <= 10 * preds.len()
            },
        forall|i: int, j: int|
            0 <= i < j < out.len() ==> {
                let (a, b) = (#[trigger] out[i], #[trigger] out[j]);
                &&& a.start_ms <= b.start_ms
                &&& a.start_ms == b.start_ms ==> a.end_ms <= b.end_ms
                &&& a.start_ms == b.start_ms && a.end_ms == b.end_ms ==> a.speaker_id < b.speaker_id
                &&& a.speaker_id == b.speaker_id ==> a.end_ms < b.start_ms
            },
{
    assert forall|i: int| 0 <= i < out.len() implies is_span(preds, #[trigger] out[i]) by {
        assert(out.contains(out[i]));
    }
    assert forall|s: int, f: int| 0 <= s < 8 && 0 <= f < preds.len() implies (0x3F00_0000
        <= #[trigger] preds[f]@[s] <= 0x7F80_0000 <==> exists|i: int|
        0 <= i < out.len() && (#[trigger] out[i]).speaker_id == s && out[i].start_ms <= f * 10
            < out[i].end_ms) by {
        crate::score::halves_are_told_by_their_pattern(preds[f]@[s]);
        if active(preds, s, f) {
            let seg = activity_is_covered(preds, s, f);
            assert(out.contains(seg));
            let i = choose|i: int| 0 <= i < out.len() && out[i] == seg;
            assert(out[i].speaker_id == s);
        }
        if exists|i: int|
            0 <= i < out.len() && (#[trigger] out[i]).speaker_id == s && out[i].start_ms <= f * 10
                < out[i].end_ms {
            let i = choose|i: int|
                0 <= i < out.len() && (#[trigger] out[i]).speaker_id == s && out[i].start_ms <= f * 10
                    < out[i].end_ms;
            assert(is_span(preds, out[i]));
            assert(active(preds, s, f));
        }
    }
    assert forall|i: int, j: int| 0 <= i < j < out.len() implies ({
        let (a, b) = (#[trigger] out[i], #[trigger] out[j]);
        &&& a.start_ms <= b.start_ms
        &&& a.start_ms == b.start_ms ==> a.end_ms <= b.end_ms
        &&& a.start_ms == b.start_ms && a.end_ms == b.end_ms ==> a.speaker_id < b.speaker_id
        &&& a.speaker_id == b.speaker_id ==> a.end_ms < b.start_ms
    }) by {
        assert(span_below(out[i], out[j]));
        assert(is_span(preds, out[i]) && is_span(preds, out[j]));
        if out[i].speaker_id == out[j].speaker_id {
            spans_of_one_speaker_are_apart(preds, out[i], out[j]);
        }
    }
}

/// Whatever becomes of the other speakers' probabilities, the spans of a speaker
/// stay as they are.
pub proof fn other_speakers_do_not_matter(
    a: Seq<[u32; SPEAKERS]>,
    b: Seq<[u32; SPEAKERS]>,
    seg: Segment,
)
    requires
        a.len() == b.len(),
        forall|f: int|
            0 <= f < a.len() ==> #[trigger] a[f]@[seg.speaker_id as int]
                == b[f]@[seg.speaker_id as int],
    ensures
        is_span(a, seg) <==> is_span(b, seg),
{
    same_column_same_span(a, b, seg);
    assert forall|f: int| 0 <= f < b.len() implies #[trigger] b[f]@[seg.speaker_id as int]
        == a[f]@[seg.speaker_id as int] by {
        assert(a[f]@[seg.speaker_id as int] == b[f]@[seg.speaker_id as int]);
    }
    same_column_same_span(b, a, seg);
}

proof fn same_column_same_span(a: Seq<[u32; SPEAKERS]>, b: Seq<[u32; SPEAKERS]>, seg: Segment)
    requires
        a.len() == b.len(),
        forall|f: int|
            0 <= f < a.len() ==> #[trigger] a[f]@[seg.speaker_id as int]
                == b[f]@[seg.speaker_id as int],
    ensures
        is_span(a, seg) ==> is_span(b, seg),
{
    let s = seg.speaker_id as int;
    if is_span(a, seg) {
        let begin = seg.start_ms as int / FRAME_MS as int;
        let end = seg.end_ms as int / FRAME_MS as int;
        assert forall|f: int| begin <= f < end implies #[trigger] active(b, s, f) by {
            assert(active(a, s, f));
            assert(a[f]@[s] == b[f]@[s]);
        }
        if begin > 0 {
            assert(a[begin - 1]@[s] == b[begin - 1]@[s]);
        }
        if end < a.len() {
            assert(a[end]@[s] == b[end]@[s]);
        }
    }
}

/// Two spans of one speaker neither overlap nor touch.
pub proof fn spans_of_one_speaker_are_apart(preds: Seq<[u32; SPEAKERS]>, a: Segment, b: Segment)
    requires
        is_span(preds, a),
        is_span(preds, b),
        a.speaker_id == b.speaker_id,
        a != b,
    ensures
        a.end_ms < b.start_ms || b.end_ms < a.start_ms,
{
    let s = a.speaker_id as int;
    let ms = FRAME_MS as int;
    let (a0, a1) = (a.start_ms as int / ms, a.end_ms as int / ms);
    let (b0, b1) = (b.start_ms as int / ms, b.end_ms as int / ms);
    if a1 < b0 || b1 < a0 {
    } else {
        if a0 < b0 {
            assert(active(preds, s, b0 - 1));
        } else if b0 < a0 {
            assert(active(preds, s, a0 - 1));
        }
        if a1 < b1 {
            assert(active(preds, s, a1));
        } else if b1 < a1 {
            assert(active(preds, s, b1));
        }
        assert(a == b);
    }
}

/// Whenever a speaker is active, some span of that speaker covers the frame.
pub proof fn activity_is_covered(preds: Seq<[u32; SPEAKERS]>, s: int, f: int) -> (seg: Segment)
    requires
        0 <= s < SPEAKERS,
        0 <= f < preds.len(),
        preds.len() * FRAME_MS <= u64::MAX,
        active(preds, s, f),
    ensures
        is_span(preds, seg),
        seg.speaker_id == s,
        seg.start_ms <= f * FRAME_MS < seg.end_ms,
{
    let begin = run_begin(preds, s, f);
    let end = run_end(preds, s, f);
    Segment {
        start_ms: (begin * FRAME_MS) as u64,
        end_ms: (end * FRAME_MS) as u64,
        speaker_id: s as u32,
    }
}

proof fn run_begin(preds: Seq<[u32; SPEAKERS]>, s: int, f: int) -> (begin: int)
    requires
        0 <= f < preds.len(),
        active(preds, s, f),
    ensures
        0 <= begin <= f,
        forall|g: int| begin <= g <= f ==> #[trigger] active(preds, s, g),
        begin > 0 ==> !active(preds, s, begin - 1),
    decreases f,
{
    if f == 0 || !active(preds, s, f - 1) {
        f
    } else {
        run_begin(preds, s, f - 1)
    }
}

proof fn run_end(preds: Seq<[u32; SPEAKERS]>, s: int, f: int) -> (end: int)
    requires
        0 <= f < preds.len(),
        active(preds, s, f),
    ensures
        f < end <= preds.len(),
        forall|g: int| f <= g < end ==> #[trigger] active(preds, s, g),
        end < preds.len() ==> !active(preds, s, end),
    decreases preds.len() - f,
{
    if f + 1 == preds.len() || !active(preds, s, f + 1) {
        f + 1
    } else {
        run_end(preds, s, f + 1)
    }
}

/// The spans of a recording are determined: two sorted lists of exactly the
/// spans are the same list.
pub proof fn span_list_is_unique(preds: Seq<[u32; SPEAKERS]>, a: Seq<Segment>, b: Seq<Segment>)
    requires
        forall|seg: Segment| #[trigger] a.contains(seg) <==> is_span(preds, seg),
        forall|seg: Segment| #[trigger] b.contains(seg) <==> is_span(preds, seg),
        forall|i: int, j: int| 0 <= i < j < a.len() ==> span_below(#[trigger] a[i], #[trigger] a[j]),
        forall|i: int, j: int| 0 <= i < j < b.len() ==> span_below(#[trigger] b[i], #[trigger] b[j]),
    ensures
        a == b,
    decreases a.len(),
{
    same_sorted(a, b, |seg: Segment| is_span(preds, seg));
}

proof fn same_sorted(a: Seq<Segment>, b: Seq<Segment>, member: spec_fn(Segment) -> bool)
    requires
        forall|seg: Segment| #[trigger] a.contains(seg) <==> member(seg),
        forall|seg: Segment| #[trigger] b.contains(seg) <==> member(seg),
        forall|i: int, j: int| 0 <= i < j < a.len() ==> span_below(#[trigger] a[i], #[trigger] a[j]),
        forall|i: int, j: int| 0 <= i < j < b.len() ==> span_below(#[trigger] b[i], #[trigger] b[j]),
    ensures
        a == b,
    decreases a.len(),
{
    if a.len() == 0 {
        if b.len() > 0 {
            assert(b.contains(b[0]));
            assert(a.contains(b[0]));
        }
        assert(a == b);
    } else {
        assert(a.contains(a.last()));
        assert(b.contains(a.last()));
        let k = choose|k: int| 0 <= k < b.len() && b[k] == a.last();
        if k < b.len() - 1 {
            assert(span_below(b[k], b.last()));
            assert(b.contains(b.last()));
            assert(a.contains(b.last()));
            let j = choose|j: int| 0 <= j < a.len() && a[j] == b.last();
            if j < a.len() - 1 {
                assert(span_below(a[j], a.last()));
            }
        }
        assert(b.last() == a.last());
        let x = a.last();
        let rest = |seg: Segment| member(seg) && seg != x;
        assert forall|seg: Segment| #[trigger] a.drop_last().contains(seg) <==> rest(seg) by {
            without_last(a, seg);
        }
        assert forall|seg: Segment| #[trigger] b.drop_last().contains(seg) <==> rest(seg) by {
            without_last(b, seg);
        }
        same_sorted(a.drop_last(), b.drop_last(), rest);
        assert(a == a.drop_last().push(x));
        assert(b == b.drop_last().push(x));
    }
}

proof fn without_last(a: Seq<Segment>, seg: Segment)
    requires
        a.len() > 0,
        forall|i: int, j: int| 0 <= i < j < a.len() ==> span_below(#[trigger] a[i], #[trigger] a[j]),
    ensures
        a.drop_last().contains(seg) <==> a.contains(seg) && seg != a.last(),
{
    if a.drop_last().contains(seg) {
        let k = choose|k: int| 0 <= k < a.len() - 1 && a.drop_last()[k] == seg;
        assert(a[k] == seg);
        assert(span_below(a[k], a.last()));
    }
    if a.contains(seg) && seg != a.last() {
        let k = choose|k: int| 0 <= k < a.len() && a[k] == seg;
        assert(a.drop_last()[k] == seg);
    }
}

/// However many frames arrive, a queue within its limit stays within it, and
/// no more leaves it than is there.
pub proof fn queue_stays_bounded(queued: int, added: int)
    requires
        0 <= queued <= FIFO_LEN,
        0 <= added,
    ensures
        0 <= popped(queued, added) <= queued + added,
        queued + added - popped(queued, added) <= FIFO_LEN,
{
}

/// Kept candidates stay with their speaker and in order of time: of two, the
/// earlier one belongs to a lower speaker, or to the same one and an earlier
/// frame.
pub proof fn kept_candidates_are_ordered(
    preds: Seq<[u32; SPEAKERS]>,
    table: Seq<SpeakerScores>,
    p: int,
    q: int,
)
    requires
        SPEAKERS * (preds.len() + 1) <= usize::MAX,
        0 <= p < q < top_positions(candidates(preds, table), SPKCACHE_LEN as nat).len(),
    ensures
        ({
            let kept = top_positions(candidates(preds, table), SPKCACHE_LEN as nat);
            let width = preds.len() as int + 1;
            let (a, b) = (kept[p] as int, kept[q] as int);
            &&& 0 <= a / width < SPEAKERS
            &&& 0 <= b / width < SPEAKERS
            &&& a / width < b / width || (a / width == b / width && a % width < b % width)
        }),
{
    let scores = candidates(preds, table);
    let kept = top_positions(scores, SPKCACHE_LEN as nat);
    let width = preds.len() as int + 1;
    top_positions_are_complete(scores, SPKCACHE_LEN as nat);
    let (a, b) = (kept[p] as int, kept[q] as int);
    assert(kept.contains(kept[p]));
    assert(kept.contains(kept[q]));
    assert(a < b < SPEAKERS * width);
    vstd::arithmetic::div_mod::lemma_fundamental_div_mod(a, width);
    vstd::arithmetic::div_mod::lemma_fundamental_div_mod(b, width);
    let (sa, ta, sb, tb) = (a / width, a % width, b / width, b % width);
    assert(sa <= sb && 0 <= sa && sb < SPEAKERS) by (nonlinear_arith)
        requires
            width > 0,
            0 <= a < b < SPEAKERS * width,
            a == width * sa + ta,
            b == width * sb + tb,
            0 <= ta < width,
            0 <= tb < width,
    ;
}

/// Silence keeps its place: where no frame ranks as high as silence does,
/// every speaker's silence is kept.
pub proof fn silence_is_kept(preds: Seq<[u32; SPEAKERS]>, table: Seq<SpeakerScores>, s: int)
    requires
        0 <= s < SPEAKERS,
        SPEAKERS * (preds.len() + 1) <= usize::MAX,
        forall|r: int, t: int|
            0 <= r < SPEAKERS && 0 <= t < preds.len() ==> total_rank(
                #[trigger] boosted(preds, table[r], r)[t],
            ) < total_rank(INFINITY),
    ensures
        top_positions(candidates(preds, table), SPKCACHE_LEN as nat).contains(
            (s * (preds.len() + 1) + preds.len()) as usize,
        ),
{
    let scores = candidates(preds, table);
    let n = preds.len() as int;
    let width = n + 1;
    let c = s * width + n;
    candidate_position(s, n, width);
    let higher = superiors(scores, c);
    let silent = Seq::new(SPEAKERS as nat, |r: int| (r * width + n) as usize);
    assert(higher.subset_of(silent.to_set())) by {
        assert forall|j: usize| higher.contains(j) implies silent.to_set().contains(j) by {
            let r = j as int / width;
            let t = j as int % width;
            vstd::arithmetic::div_mod::lemma_fundamental_div_mod(j as int, width);
            assert(0 <= r < SPEAKERS) by (nonlinear_arith)
                requires
                    width > 0,
                    0 <= j < SPEAKERS * width,
                    j == width * r + t,
                    0 <= t < width,
            ;
            if t < n {
                assert(scores[j as int] == boosted(preds, table[r], r)[t]);
            }
            assert(t == n);
            assert(r * width == width * r) by (nonlinear_arith);
            assert(silent[r] == j);
        }
    }
    silent.lemma_cardinality_of_set();
    vstd::seq_lib::seq_to_set_is_finite(silent);
    vstd::set_lib::lemma_len_subset(higher, silent.to_set());
    top_positions_are_complete(scores, SPKCACHE_LEN as nat);
    assert(among_top(scores, SPKCACHE_LEN as nat, c as usize as int));
}

/// The embedding of frame `t` of a cache.
pub open spec fn embedding<T>(cache: Seq<T>, t: int) -> Seq<T> {
    cache.subrange(t * EMB_DIM, (t + 1) * EMB_DIM)
}

/// No score ranks as high as silence does, as no finite number does.
pub open spec fn ranks_below_silence(scores: SpeakerScores, n: int) -> bool {
    &&& scores.covers(n as nat)
    &&& forall|t: int|
        0 <= t < n ==> {
            &&& total_rank(#[trigger] scores.base@[t]) < total_rank(INFINITY)
            &&& total_rank(scores.strong@[t]) < total_rank(INFINITY)
            &&& total_rank(scores.weak@[t]) < total_rank(INFINITY)
            &&& total_rank(scores.both@[t]) < total_rank(INFINITY)
        }
}

/// Places `lo` up to `hi` of the cache of `after` are a block of speaker `s`:
/// frames of the cache of `before` that were kept for that speaker, in strictly
/// rising order of time and with their own probabilities, and behind them one
/// place of silence.
pub open spec fn is_speaker_block<T: Copy>(
    before: State<T>,
    silence: Seq<T>,
    table: Seq<SpeakerScores>,
    after: State<T>,
    s: int,
    lo: int,
    hi: int,
) -> bool {
    let n = before.cache_len as int;
    let kept = top_positions(candidates(before.cache_preds@, table), SPKCACHE_LEN as nat);
    let times = kept_frames(before.cache_preds@, table);
    &&& 0 <= lo < hi <= SPKCACHE_LEN
    &&& forall|k: int| lo <= k < hi ==> #[trigger] kept[k] as int / (n + 1) == s
    &&& forall|k: int|
        lo <= k < hi - 1 ==> {
            &&& 0 <= #[trigger] times[k] < n
            &&& embedding(after.cache@, k) == embedding(before.cache@, times[k])
            &&& forall|r: int|
                0 <= r < SPEAKERS ==> #[trigger] after.cache_preds@[k]@[r]
                    == before.cache_preds@[times[k]]@[r]
        }
    &&& forall|k: int, l: int| lo <= k < l < hi - 1 ==> #[trigger] times[k] < #[trigger] times[l]
    &&& embedding(after.cache@, hi - 1) == silence
    &&& forall|r: int| 0 <= r < SPEAKERS ==> #[trigger] after.cache_preds@[hi - 1]@[r] == ZERO
}

/// Where block `s` begins of blocks that end at `ends`.
pub open spec fn block_start(ends: Seq<int>, s: int) -> int {
    if s == 0 {
        0
    } else {
        ends[s - 1]
    }
}

/// A compressed cache is made of one block per speaker, one behind the other:
/// frames in strictly rising order of time, and exactly one place of silence at
/// the end.
pub proof fn compressed_cache_is_in_speaker_blocks<T: Copy>(
    before: State<T>,
    silence: Seq<T>,
    table: Seq<SpeakerScores>,
    after: State<T>,
) -> (ends: Seq<int>)
    requires
        before.wf(),
        silence.len() == EMB_DIM,
        SPEAKERS * (before.cache_len + 1) >= SPKCACHE_LEN,
        SPEAKERS * (before.cache_len + 1) <= usize::MAX,
        table.len() == SPEAKERS,
        forall|s: int|
            0 <= s < SPEAKERS ==> ranks_below_silence(#[trigger] table[s], before.cache_len as int),
        is_compression(before, silence, table, after),
    ensures
        ends.len() == SPEAKERS,
        ends.last() == SPKCACHE_LEN,
        forall|s: int|
            0 <= s < SPEAKERS ==> is_speaker_block(
                before,
                silence,
                table,
                after,
                s,
                block_start(ends, s),
                #[trigger] ends[s],
            ),
{
    let preds = before.cache_preds@;
    let n = before.cache_len as int;
    let width = n + 1;
    let scores = candidates(preds, table);
    let kept = top_positions(scores, SPKCACHE_LEN as nat);
    let times = kept_frames(preds, table);
    top_positions_are_complete(scores, SPKCACHE_LEN as nat);
    assert(kept.len() == SPKCACHE_LEN);
    assert forall|r: int, t: int| 0 <= r < SPEAKERS && 0 <= t < preds.len() implies total_rank(
        #[trigger] boosted(preds, table[r], r)[t],
    ) < total_rank(INFINITY) by {
        assert(ranks_below_silence(table[r], n));
        assert(total_rank(table[r].base@[t]) < total_rank(INFINITY));
    }
    let ends = Seq::new(SPEAKERS as nat, |s: int| silent_place(kept, s, n) + 1);
    assert forall|s: int| 0 <= s < SPEAKERS implies #[trigger] ends[s] == silent_place(kept, s, n) + 1
        && is_silent_place(kept, s, n, ends[s] - 1) by {
        silence_is_kept(preds, table, s);
        let c = (s * (n + 1) + n) as usize;
        assert(kept.contains(c));
        candidate_position(s, n, width);
        let p = choose|p: int| 0 <= p < kept.len() && kept[p] == c;
        assert(is_silent_place(kept, s, n, p));
    }
    assert forall|s: int| 0 <= s < SPEAKERS implies is_speaker_block(
        before,
        silence,
        table,
        after,
        s,
        block_start(ends, s),
        #[trigger] ends[s],
    ) by {
        let lo = block_start(ends, s);
        let hi = ends[s];
        assert(is_silent_place(kept, s, n, hi - 1));
        assert(s * width + n < (s + 1) * width) by (nonlinear_arith)
            requires
                width == n + 1,
        ;
        if s > 0 {
            let previous = ends[s - 1];
            assert(is_silent_place(kept, s - 1, n, previous - 1));
            assert((s - 1) * width + n + 1 == s * width) by (nonlinear_arith)
                requires
                    width == n + 1,
            ;
            if previous - 1 >= hi - 1 {
                assert(kept[hi - 1] <= kept[previous - 1]);
            }
        } else {
            assert(0 * width == 0);
        }
        assert forall|k: int| lo <= k < hi implies s * width <= #[trigger] kept[k] <= s * width + n by {
            if k < hi - 1 {
                assert(kept[k] < kept[hi - 1]);
            }
            if s > 0 {
                assert(kept[lo - 1] < kept[k]);
            }
        }
        assert forall|k: int| lo <= k < hi implies #[trigger] kept[k] as int / width == s && times[k]
            == kept[k] - s * width by {
            vstd::arithmetic::div_mod::lemma_fundamental_div_mod_converse(
                kept[k] as int,
                width,
                s,
                kept[k] - s * width,
            );
        }
        assert forall|k: int| lo <= k < hi - 1 implies 0 <= #[trigger] times[k] < n && embedding(
            after.cache@,
            k,
        ) == embedding(before.cache@, times[k]) by {
            assert(kept[k] < kept[hi - 1]);
            kept_embedding(before, silence, table, after, k);
        }
        assert forall|k: int, l: int| lo <= k < l < hi - 1 implies #[trigger] times[k]
            < #[trigger] times[l] by {
            assert(kept[k] < kept[l]);
        }
        assert(times[hi - 1] == n) by {
            assert(kept[hi - 1] == s * width + n);
        }
        kept_embedding(before, silence, table, after, hi - 1);
    }
    let last = ends[SPEAKERS - 1];
    assert(is_silent_place(kept, SPEAKERS - 1, n, last - 1));
    if last < SPKCACHE_LEN {
        assert(kept[last - 1] < kept[SPKCACHE_LEN - 1]);
        assert(kept.contains(kept[SPKCACHE_LEN - 1]));
        assert((SPEAKERS - 1) * width + n + 1 == SPEAKERS * width) by (nonlinear_arith)
            requires
                width == n + 1,
        ;
    }
    ends
}

/// The candidate at place `p` is the silence of speaker `s`.
spec fn is_silent_place(kept: Seq<usize>, s: int, n: int, p: int) -> bool {
    0 <= p < kept.len() && kept[p] == s * (n + 1) + n
}

/// The place of the silence of speaker `s`.
spec fn silent_place(kept: Seq<usize>, s: int, n: int) -> int {
    choose|p: int| is_silent_place(kept, s, n, p)
}

proof fn kept_embedding<T: Copy>(
    before: State<T>,
    silence: Seq<T>,
    table: Seq<SpeakerScores>,
    after: State<T>,
    k: int,
)
    requires
        before.wf(),
        silence.len() == EMB_DIM,
        is_compression(before, silence, table, after),
        0 <= k < SPKCACHE_LEN,
        0 <= kept_frames(before.cache_preds@, table)[k] <= before.cache_len,
    ensures
        embedding(after.cache@, k) == if kept_frames(before.cache_preds@, table)[k]
            == before.cache_len {
            silence
        } else {
            embedding(before.cache@, kept_frames(before.cache_preds@, table)[k])
        },
{
    let t = kept_frames(before.cache_preds@, table)[k];
    let got = embedding(after.cache@, k);
    assert forall|d: int| 0 <= d < EMB_DIM implies #[trigger] got[d] == if t == before.cache_len {
        silence[d]
    } else {
        before.cache@[t * EMB_DIM + d]
    } by {
        let x = k * EMB_DIM + d;
        assert(x / EMB_DIM as int == k);
        assert(x % EMB_DIM as int == d);
        assert(got[d] == after.cache@[x]);
    }
    if t == before.cache_len {
        assert(got == silence);
    } else {
        assert(got == embedding(before.cache@, t));
    }
}

/// How many rows of probabilities there are once all frames before `start` have
/// been fed: one per frame, and behind the last frame as many as fill its
/// stack.
pub open spec fn rows_before(start: int, total: int) -> int {
    if start < total {
        start
    } else {
        stacks(total) * STACK
    }
}

/// The rows of the result line up with the frames: from chunk to chunk there
/// are as many rows as frames fed, and in the end every frame has its row. Each
/// chunk gets further.
pub proof fn rows_line_up_with_frames(start: int, total: int)
    requires
        0 <= start < total,
        start % STACK as int == 0,
    ensures
        rows_before(0, total) == 0,
        ({
            let end = core_end(start, total);
            &&& start < end <= total
            &&& rows_before(start, total) + stacks(end - start) * STACK == rows_before(end, total)
            &&& end < total ==> end % STACK as int == 0
        }),
        total <= rows_before(total, total) < total + STACK,
{
}

/// How many frames leave the queue: none while there are no more than 40. Else
/// at least 300, and so many that of the new ones at most 40 stay, or all where
/// there are not so many.
pub proof fn queue_gives_up_what_it_cannot_hold(queued: int, added: int)
    requires
        0 <= queued,
        0 <= added,
    ensures
        queued + added <= 40 ==> popped(queued, added) == 0,
        queued + added > 40 && queued + added <= 300 ==> popped(queued, added) == queued + added,
        queued + added > 300 && added <= 40 && queued <= 300 ==> popped(queued, added) == 300,
        queued + added > 300 && added <= 40 && queued > 300 ==> popped(queued, added) == queued,
        queued + added > 300 && added > 40 && queued + added <= 340 ==> popped(queued, added) == 300,
        queued + added > 340 && added > 40 ==> popped(queued, added) == queued + added - 40,
{
}

/// The shapes that the graph takes, and the shares that follow from them: each
/// speaker has an equal share of the cache but for the place of silence. Three
/// quarters of it are boosted strongly, one and a half of it weakly, and with
/// half of it positive the others are disabled.
pub proof fn cache_is_shared_by_the_speakers()
    ensures
        SPEAKERS == 8,
        SPKCACHE_LEN == 264,
        FIFO_LEN == 40,
        EMB_DIM == 512,
        N_MELS == 128,
        STACK == 8,
        CHUNK_LEN == 340,
        RIGHT_CONTEXT == 40,
        CHUNK_INPUT_FRAMES == (CHUNK_LEN + RIGHT_CONTEXT) * STACK,
        FRAME_MS == 10,
        SAMPLE_RATE == 16_000,
        N_FFT == 512,
        HOP == 160,
        WIN_LEN == 400,
        ({
            let share = SPKCACHE_LEN as int / SPEAKERS as int - 1;
            &&& 4 * STRONG_BOOST == 3 * share
            &&& 2 * WEAK_BOOST == 3 * share
            &&& 2 * MIN_POSITIVE == share
        }),
{
}

/// A frame counts for a speaker where the speaker's probability is more than one
/// half. Its score is positive where it is a number above zero. These are
/// counted frame by frame.
pub proof fn positive_scores_are_counted(preds: Seq<[u32; SPEAKERS]>, base: Seq<u32>, s: int, t: int)
    requires
        0 <= t,
    ensures
        confident(preds, s, t) <==> 0x3F00_0000 < preds[t]@[s] <= 0x7F80_0000,
        positives(preds, base, s, 0) == 0,
        confident(preds, s, t) && 0 < base[t] <= 0x7F80_0000 ==> positives(preds, base, s, t + 1)
            == positives(preds, base, s, t) + 1,
        !(confident(preds, s, t) && 0 < base[t] <= 0x7F80_0000) ==> positives(preds, base, s, t + 1)
            == positives(preds, base, s, t),
{
    crate::score::halves_are_told_by_their_pattern(preds[t]@[s]);
    crate::score::halves_are_told_by_their_pattern(base[t]);
}

/// A frame can be kept for a speaker where it counts for that speaker, unless its
/// score is zero or negative and there are 16 positive ones.
pub proof fn weak_scores_are_disabled(preds: Seq<[u32; SPEAKERS]>, base: Seq<u32>, s: int, t: int)
    requires
        0 <= t < preds.len(),
    ensures
        live(preds, base, s, t) <==> 0x3F00_0000 < preds[t]@[s] <= 0x7F80_0000 && !((base[t] == 0
            || 0x8000_0000 <= base[t] <= 0xFF80_0000) && positives(
            preds,
            base,
            s,
            preds.len() as int,
        ) >= 16),
        enabled(preds, base, s).len() == preds.len(),
        live(preds, base, s, t) ==> enabled(preds, base, s)[t] == base[t],
        !live(preds, base, s, t) ==> enabled(preds, base, s)[t] == 0xFF80_0000,
{
    crate::score::halves_are_told_by_their_pattern(preds[t]@[s]);
    crate::score::halves_are_told_by_their_pattern(base[t]);
}

/// The strong boost goes to the 24 highest of a speaker's scores, and the weak
/// one to the 48 highest behind it. A frame that cannot be kept stays at the
/// bottom.
pub proof fn boosts_go_to_the_highest_scores(
    preds: Seq<[u32; SPEAKERS]>,
    scores: SpeakerScores,
    s: int,
    t: int,
)
    requires
        0 <= t < preds.len(),
    ensures
        ({
            let strong = among_top(enabled(preds, scores.base@, s), 24, t);
            let weak = among_top(boosted_once(preds, scores, s), 48, t);
            let kept = live(preds, scores.base@, s, t);
            let once = boosted_once(preds, scores, s);
            let twice = boosted(preds, scores, s);
            &&& once.len() == preds.len()
            &&& twice.len() == preds.len()
            &&& !kept ==> once[t] == 0xFF80_0000 && twice[t] == 0xFF80_0000
            &&& kept && strong ==> once[t] == scores.strong@[t]
            &&& kept && !strong ==> once[t] == scores.base@[t]
            &&& kept && strong && weak ==> twice[t] == scores.both@[t]
            &&& kept && strong && !weak ==> twice[t] == scores.strong@[t]
            &&& kept && !strong && weak ==> twice[t] == scores.weak@[t]
            &&& kept && !strong && !weak ==> twice[t] == scores.base@[t]
        }),
{
}

/// Of two frames that can be kept for a speaker, one that is boosted strongly
/// scores at least as high as one that is not, and comes first where they score
/// the same.
pub proof fn boosted_frames_score_higher(
    preds: Seq<[u32; SPEAKERS]>,
    scores: SpeakerScores,
    s: int,
    t: int,
    u: int,
)
    requires
        preds.len() <= usize::MAX,
        0 <= t < preds.len(),
        0 <= u < preds.len(),
        live(preds, scores.base@, s, t),
        live(preds, scores.base@, s, u),
        strongly_boosted(preds, scores, s, t),
        !strongly_boosted(preds, scores, s, u),
    ensures
        total_rank(scores.base@[t]) > total_rank(scores.base@[u]) || (scores.base@[t]
            == scores.base@[u] && t < u),
{
    crate::order::selected_scores_rank_highest(
        enabled(preds, scores.base@, s),
        STRONG_BOOST as nat,
        t,
        u,
    );
    crate::score::total_order_is_strict(scores.base@[t], scores.base@[u]);
}

/// The candidates stand speaker by speaker: the frames in order of time and
/// behind them silence, which scores infinity.
pub proof fn candidates_stand_speaker_by_speaker(
    preds: Seq<[u32; SPEAKERS]>,
    table: Seq<SpeakerScores>,
    s: int,
    t: int,
)
    requires
        0 <= s < 8,
        0 <= t < preds.len(),
    ensures
        ({
            let n = preds.len() as int;
            let all = candidates(preds, table);
            &&& all.len() == 8 * (n + 1)
            &&& all[s * (n + 1) + t] == boosted(preds, table[s], s)[t]
            &&& all[s * (n + 1) + n] == 0x7F80_0000
        }),
{
    let width = preds.len() as int + 1;
    candidate_position(s, t, width);
    candidate_position(s, preds.len() as int, width);
}

/// The 264 highest candidates are kept, each for the frame that it stands for.
pub proof fn highest_candidates_are_kept(
    preds: Seq<[u32; SPEAKERS]>,
    table: Seq<SpeakerScores>,
    k: int,
)
    requires
        264 <= 8 * (preds.len() + 1) <= usize::MAX,
        0 <= k < 264,
    ensures
        kept_frames(preds, table).len() == 264,
        kept_frames(preds, table)[k] == top_positions(candidates(preds, table), 264)[k] as int % (
        preds.len() as int + 1),
{
    top_positions_are_complete(candidates(preds, table), SPKCACHE_LEN as nat);
}

/// The numbers of a file are little-endian: of four bytes the first is the
/// lowest.
pub proof fn numbers_are_little_endian(bytes: Seq<u8>, i: int)
    requires
        0 <= i,
        4 * i + 3 < bytes.len(),
    ensures
        patterns(bytes).len() == bytes.len() / 4,
        patterns(bytes)[i] as int % 256 == bytes[4 * i],
        patterns(bytes)[i] as int / 256 % 256 == bytes[4 * i + 1],
        patterns(bytes)[i] as int / 65536 % 256 == bytes[4 * i + 2],
        patterns(bytes)[i] as int / 16777216 == bytes[4 * i + 3],
{
}

} // verus!
