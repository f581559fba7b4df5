//! Streaming recognition: the features are fed in overlapping chunks, and the
//! model's cache is carried from each chunk to the next.

use vstd::prelude::*;

use crate::nemotron::padded;

verus! {

pub const FEATURE_BINS: usize = 80;

pub const FEATURE_CHUNK_FRAMES: usize = 121;

pub const FEATURE_SHIFT_FRAMES: usize = 112;

pub const CACHE_LAYERS: usize = 17;

pub const CACHE_LEFT_FRAMES: usize = 70;

pub const CACHE_D_MODEL: usize = 512;

pub const CACHE_TIME_WIDTH: usize = 8;

/// How many numbers the channel cache holds.
pub const CHANNEL_CACHE: usize = 609_280;

/// How many numbers the time cache holds.
pub const TIME_CACHE: usize = 69_632;

/// Why features cannot be streamed.
#[derive(Debug, Clone, Copy, PartialEq, Eq, Structural)]
pub enum StreamError {
    /// They do not have as many bins as they are to.
    Bins,
    /// There are no frames, or fewer than announced.
    Frames,
}

/// The features have a row for each bin, and each row a number for each frame.
pub open spec fn is_matrix<T>(feat: Seq<Vec<T>>, bins: int, frames: int) -> bool {
    &&& feat.len() == bins
    &&& forall|m: int| 0 <= m < bins ==> (#[trigger] feat[m])@.len() >= frames
}

/// `frames` frames of the features from frame `start` on, bin by bin, filled up
/// with `zero` to `width` frames.
pub open spec fn window<T>(feat: Seq<Vec<T>>, start: int, frames: int, width: int, zero: T) -> Seq<T> {
    Seq::new(
        (feat.len() * width) as nat,
        |x: int|
            if x % width < frames {
                feat[x / width]@[start + x % width]
            } else {
                zero
            },
    )
}

/// Of the first `bins` bins, `frames` frames of the features from frame `start`
/// on, bin by bin, filled up with `zero` to `width` frames.
pub fn copy_window<T: Copy>(
    feat: &Vec<Vec<T>>,
    bins: usize,
    start: usize,
    frames: usize,
    width: usize,
    zero: T,
) -> (out: Vec<T>)
    requires
        bins <= feat@.len(),
        0 < width,
        frames <= width,
        start + frames <= usize::MAX,
        is_matrix(feat@.take(bins as int), bins as int, start + frames),
    ensures
        out@ == window(feat@.take(bins as int), start as int, frames as int, width as int, zero),
{
    let mut out: Vec<T> = Vec::new();
    let mut m: usize = 0;
    let ghost all = window(feat@.take(bins as int), start as int, frames as int, width as int, zero);
    assert(0 * width == 0) by (nonlinear_arith);
    while m < bins
        invariant
            bins <= feat@.len(),
            0 < width,
            frames <= width,
            start + frames <= usize::MAX,
            is_matrix(feat@.take(bins as int), bins as int, start + frames),
            all == window(feat@.take(bins as int), start as int, frames as int, width as int, zero),
            m <= bins,
            out@.len() == m * width,
            out@ == all.take(out@.len() as int),
        decreases bins - m,
    {
        let mut f: usize = 0;
        while f < width
            invariant
                bins <= feat@.len(),
                0 < width,
                frames <= width,
                start + frames <= usize::MAX,
                is_matrix(feat@.take(bins as int), bins as int, start + frames),
                all == window(feat@.take(bins as int), start as int, frames as int, width as int, zero),
                m < bins,
                f <= width,
                out@.len() == m * width + f,
                out@ == all.take(out@.len() as int),
            decreases width - f,
        {
            proof {
                let x = m * width + f;
                vstd::arithmetic::div_mod::lemma_fundamental_div_mod_converse(
                    x,
                    width as int,
                    m as int,
                    f as int,
                );
                assert(0 <= x < bins * width) by (nonlinear_arith)
                    requires
                        x == m * width + f,
                        0 <= m < bins,
                        0 <= f < width,
                ;
                assert(feat@.take(bins as int)[m as int]@.len() >= start + frames);
            }
            out.push(
                if f < frames {
                    feat[m][start + f]
                } else {
                    zero
                },
            );
            assert(out@ == all.take(out@.len() as int));
            f += 1;
        }
        assert((m + 1) * width == m * width + width) by (nonlinear_arith);
        m += 1;
    }
    assert(all.take(all.len() as int) == all);
    out
}

/// A pass over the features of one recording.
pub struct Session<T> {
    /// How many frames there are.
    pub frames: usize,
    /// The next frame to feed.
    pub start: usize,
    /// The caches that the next chunk is fed with.
    pub channel: Vec<T>,
    pub time: Vec<T>,
    pub channel_len: i64,
    /// The scores so far, one row per frame that the model gives.
    pub rows: Vec<Vec<T>>,
}

/// How many frames the chunk that begins at `start` has.
pub open spec fn chunk_frames(start: int, frames: int) -> int {
    if frames - start < FEATURE_CHUNK_FRAMES {
        frames - start
    } else {
        FEATURE_CHUNK_FRAMES as int
    }
}

/// Where the chunk behind the one at `start` begins, or the end where there is
/// none.
pub open spec fn next_start(start: int, frames: int) -> int {
    if frames - start > FEATURE_SHIFT_FRAMES {
        start + FEATURE_SHIFT_FRAMES
    } else {
        frames
    }
}

/// Where chunk number `k` begins, or the end where there is none.
pub open spec fn nth_start(k: int, frames: int) -> int {
    if k * FEATURE_SHIFT_FRAMES < frames {
        k * FEATURE_SHIFT_FRAMES
    } else {
        frames
    }
}

impl<T: Copy> Session<T> {
    /// The beginning of a recording of `frames` frames, with features of `bins`
    /// bins and `width` frames. The caches are `zero`.
    pub fn new(bins: usize, width: usize, frames: usize, zero: T) -> (r: Result<Self, StreamError>)
        ensures
            if bins != FEATURE_BINS {
                r matches Err(e) && e == StreamError::Bins
            } else if frames == 0 || frames > width {
                r matches Err(e) && e == StreamError::Frames
            } else {
                &&& r matches Ok(session)
                &&& session.frames == frames
                &&& session.start == 0
                &&& session.channel@ == Seq::new(CHANNEL_CACHE as nat, |i: int| zero)
                &&& session.time@ == Seq::new(TIME_CACHE as nat, |i: int| zero)
                &&& session.channel_len == 0
                &&& session.rows@.len() == 0
            },
    {
        if bins != FEATURE_BINS {
            return Err(StreamError::Bins);
        }
        if frames == 0 || frames > width {
            return Err(StreamError::Frames);
        }
        let empty: Vec<T> = Vec::new();
        let channel = padded(&empty, CHANNEL_CACHE, zero);
        let time = padded(&empty, TIME_CACHE, zero);
        assert(channel@ == Seq::new(CHANNEL_CACHE as nat, |i: int| zero));
        assert(time@ == Seq::new(TIME_CACHE as nat, |i: int| zero));
        Ok(Session { frames, start: 0, channel, time, channel_len: 0, rows: Vec::new() })
    }

    /// How many frames the next chunk has, or `None` where all have been fed.
    pub fn next_chunk(&self) -> (n: Option<usize>)
        ensures
            if self.start < self.frames {
                n matches Some(v) && v == chunk_frames(self.start as int, self.frames as int)
            } else {
                n is None
            },
    {
        if self.start >= self.frames {
            return None;
        }
        let rest: usize = self.frames - self.start;
        Some(
            if rest < FEATURE_CHUNK_FRAMES {
                rest
            } else {
                FEATURE_CHUNK_FRAMES
            },
        )
    }

    /// The features of the next chunk, bin by bin, filled up with `zero`.
    pub fn chunk_input(&self, feat: &Vec<Vec<T>>, zero: T) -> (out: Vec<T>)
        requires
            self.start < self.frames,
            is_matrix(feat@, FEATURE_BINS as int, self.frames as int),
        ensures
            out@ == window(
                feat@,
                self.start as int,
                chunk_frames(self.start as int, self.frames as int),
                FEATURE_CHUNK_FRAMES as int,
                zero,
            ),
    {
        let rest: usize = self.frames - self.start;
        let valid: usize = if rest < FEATURE_CHUNK_FRAMES {
            rest
        } else {
            FEATURE_CHUNK_FRAMES
        };
        assert(feat@.take(FEATURE_BINS as int) == feat@);
        copy_window(feat, FEATURE_BINS, self.start, valid, FEATURE_CHUNK_FRAMES, zero)
    }

    /// Takes in the model's answer to a chunk: its scores follow those before
    /// them, and its caches are what the next chunk is fed with.
    pub fn absorb(&mut self, scores: Vec<Vec<T>>, channel: Vec<T>, time: Vec<T>, channel_len: i64)
        requires
            old(self).start < old(self).frames,
        ensures
            final(self).rows@ == old(self).rows@ + scores@,
            final(self).channel == channel,
            final(self).time == time,
            final(self).channel_len == channel_len,
            final(self).frames == old(self).frames,
            final(self).start == next_start(old(self).start as int, old(self).frames as int),
    {
        let mut scores = scores;
        self.rows.append(&mut scores);
        self.channel = channel;
        self.time = time;
        self.channel_len = channel_len;
        self.start = if self.frames - self.start > FEATURE_SHIFT_FRAMES {
            self.start + FEATURE_SHIFT_FRAMES
        } else {
            self.frames
        };
    }
}

/// The chunks begin at the first frame and every `FEATURE_SHIFT_FRAMES` frames
/// from there.
pub proof fn chunks_begin_at_every_shift(k: int, frames: int)
    requires
        0 <= k,
        0 < frames,
    ensures
        nth_start(0, frames) == 0,
        nth_start(k, frames) < frames ==> next_start(nth_start(k, frames), frames) == nth_start(
            k + 1,
            frames,
        ),
{
}

/// Every frame is fed: frame `f` is in the chunk that its number gives.
pub proof fn every_frame_is_fed(frames: int, f: int)
    requires
        0 <= f < frames,
    ensures
        ({
            let start = nth_start(f / FEATURE_SHIFT_FRAMES as int, frames);
            0 <= start <= f < start + chunk_frames(start, frames)
        }),
{
}

/// A chunk behind a full one repeats that one's last nine frames.
pub proof fn chunks_overlap(start: int, frames: int)
    requires
        0 <= start,
        start + FEATURE_CHUNK_FRAMES <= frames,
    ensures
        start + chunk_frames(start, frames) - next_start(start, frames) == 9,
{
}

/// The caches have the shape that the model takes: of layers, frames and
/// numbers, and of layers, numbers and steps.
pub proof fn caches_have_the_models_shape()
    ensures
        CHANNEL_CACHE == CACHE_LAYERS * CACHE_LEFT_FRAMES * CACHE_D_MODEL,
        TIME_CACHE == CACHE_LAYERS * CACHE_D_MODEL * CACHE_TIME_WIDTH,
{
}

/// The shapes that the streaming model takes.
pub proof fn streaming_model_has_its_shape()
    ensures
        FEATURE_BINS == 80,
        FEATURE_CHUNK_FRAMES == 121,
        FEATURE_SHIFT_FRAMES == 112,
        CACHE_LAYERS == 17,
        CACHE_LEFT_FRAMES == 70,
        CACHE_D_MODEL == 512,
        CACHE_TIME_WIDTH == 8,
{
}

/// A chunk has 121 frames or those that are left, and the next one begins 112
/// frames behind it or at the end.
pub proof fn chunks_take_what_is_left(start: int, frames: int)
    requires
        0 <= start < frames,
    ensures
        frames - start >= 121 ==> chunk_frames(start, frames) == 121,
        frames - start < 121 ==> chunk_frames(start, frames) == frames - start,
        frames - start > 112 ==> next_start(start, frames) == start + 112,
        frames - start <= 112 ==> next_start(start, frames) == frames,
{
}

/// A window holds each bin's frames from its start on at the bin's own place, and
/// is filled up behind them.
pub proof fn windows_hold_the_features<T>(
    feat: Seq<Vec<T>>,
    start: int,
    frames: int,
    width: int,
    zero: T,
    bin: int,
    f: int,
)
    requires
        0 <= bin < feat.len(),
        0 <= f < width,
    ensures
        window(feat, start, frames, width, zero).len() == feat.len() * width,
        f < frames ==> window(feat, start, frames, width, zero)[bin * width + f] == feat[bin]@[start
            + f],
        f >= frames ==> window(feat, start, frames, width, zero)[bin * width + f] == zero,
{
    vstd::arithmetic::div_mod::lemma_fundamental_div_mod_converse(bin * width + f, width, bin, f);
    assert(0 <= bin * width + f < feat.len() * width) by (nonlinear_arith)
        requires
            0 <= bin < feat.len(),
            0 <= f < width,
    ;
}

} // verus!
