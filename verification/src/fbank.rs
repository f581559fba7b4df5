//! The arrangement of samples and features around the spectral analysis.

use vstd::prelude::*;

use crate::json::{as_array, get, json_document, json_value, member, parse, Json};
use crate::model::{INPUT_BINS, INPUT_FRAMES};
use crate::streaming::{copy_window, is_matrix, window};

verus! {

pub const N_FFT: usize = 512;

pub const HOP: usize = 160;

/// How many samples are mirrored at each end.
pub const PAD: usize = 256;

/// Which of `n` samples lies at a distance from the first one, where the signal
/// is mirrored at both of its ends over and over and the ends are not repeated.
pub open spec fn folded_at(distance: int, n: int) -> int {
    if n <= 1 {
        0
    } else {
        let period = 2 * (n - 1);
        let at = distance % period;
        if at < n {
            at
        } else {
            period - at
        }
    }
}

/// `signal` continued by `pad` samples at each end, mirrored at its ends.
pub open spec fn reflected<T>(signal: Seq<T>, pad: int) -> Seq<T> {
    Seq::new(
        (signal.len() + 2 * pad) as nat,
        |i: int| signal[folded_at(i - pad, signal.len() as int)],
    )
}

/// The mirrors: as far to the left of the first sample as to its right, and so
/// at the last one.
proof fn folding_mirrors(distance: int, n: int)
    requires
        n > 0,
    ensures
        0 <= folded_at(distance, n) < n,
        folded_at(-distance, n) == folded_at(distance, n),
        folded_at(2 * (n - 1) - distance, n) == folded_at(distance, n),
        0 <= distance < n ==> folded_at(distance, n) == distance,
{
    if n > 1 {
        let period = 2 * (n - 1);
        let q = distance / period;
        let r = distance % period;
        vstd::arithmetic::div_mod::lemma_fundamental_div_mod(distance, period);
        vstd::arithmetic::div_mod::lemma_mod_bound(distance, period);
        if r == 0 {
            assert(-distance == (-q) * period + 0) by (nonlinear_arith)
                requires
                    distance == period * q + r,
                    r == 0,
            ;
            vstd::arithmetic::div_mod::lemma_fundamental_div_mod_converse_mod(
                -distance,
                period,
                -q,
                0,
            );
        } else {
            assert(-distance == (-q - 1) * period + (period - r)) by (nonlinear_arith)
                requires
                    distance == period * q + r,
            ;
            vstd::arithmetic::div_mod::lemma_fundamental_div_mod_converse_mod(
                -distance,
                period,
                -q - 1,
                period - r,
            );
        }
        vstd::arithmetic::div_mod::lemma_mod_add_multiples_vanish(-distance, period);
        if 0 <= distance < n {
            vstd::arithmetic::div_mod::lemma_small_mod(distance as nat, period as nat);
        }
    }
}

/// Which of `n` samples lies at a distance from the first one, to either side.
fn fold_at(distance: usize, n: usize) -> (at: usize)
    requires
        n > 0,
    ensures
        at == folded_at(distance as int, n as int),
        at == folded_at(-(distance as int), n as int),
        at < n,
{
    proof {
        folding_mirrors(distance as int, n as int);
    }
    if n == 1 {
        return 0;
    }
    let period: u128 = 2 * (n as u128 - 1);
    let at: u128 = distance as u128 % period;
    if at < n as u128 {
        at as usize
    } else {
        (period - at) as usize
    }
}

/// `signal` continued by `pad` samples at each end, mirrored at its ends, which
/// are not repeated: `[1, 2, 3]` becomes `[3, 2, 1, 2, 3, 2, 1]` for two. Where
/// the signal is shorter than that, it is mirrored again at its other end.
/// Where there are no samples, it is `zero` throughout.
pub fn reflect_pad<T: Copy>(signal: &Vec<T>, pad: usize, zero: T) -> (out: Vec<T>)
    requires
        signal@.len() + 2 * pad <= usize::MAX,
    ensures
        out@ == if signal@.len() == 0 {
            Seq::new((2 * pad) as nat, |i: int| zero)
        } else {
            reflected(signal@, pad as int)
        },
{
    let n: usize = signal.len();
    let mut out: Vec<T> = Vec::new();
    let ghost whole = if n == 0 {
        Seq::new((2 * pad) as nat, |i: int| zero)
    } else {
        reflected(signal@, pad as int)
    };
    let mut i: usize = 0;
    while i < n + 2 * pad
        invariant
            n == signal.len(),
            n + 2 * pad <= usize::MAX,
            i <= n + 2 * pad,
            whole == (if n == 0 {
                Seq::new((2 * pad) as nat, |i: int| zero)
            } else {
                reflected(signal@, pad as int)
            }),
            out@ == whole.take(i as int),
        decreases n + 2 * pad - i,
    {
        out.push(
            if n == 0 {
                zero
            } else if i < pad {
                signal[fold_at(pad - i, n)]
            } else {
                signal[fold_at(i - pad, n)]
            },
        );
        assert(out@ == whole.take(i + 1));
        i += 1;
    }
    assert(whole.take(whole.len() as int) == whole);
    out
}

/// Both ends are mirrors: the samples to the left of the first one and to the
/// right of the last one are those on its other side. Between the ends stands
/// the signal.
pub proof fn ends_are_mirrors<T>(signal: Seq<T>, pad: int, k: int)
    requires
        signal.len() > 0,
        0 <= k <= pad,
    ensures
        reflected(signal, pad).len() == signal.len() + 2 * pad,
        reflected(signal, pad)[pad - k] == reflected(signal, pad)[pad + k],
        reflected(signal, pad)[pad + signal.len() - 1 + k] == reflected(signal, pad)[pad + signal.len()
            - 1 - k],
        forall|i: int| 0 <= i < signal.len() ==> reflected(signal, pad)[pad + i] == #[trigger] signal[i],
{
    let n = signal.len() as int;
    folding_mirrors(k, n);
    folding_mirrors(n - 1 + k, n);
    assert forall|i: int| 0 <= i < n implies reflected(signal, pad)[pad + i] == #[trigger] signal[i] by {
        folding_mirrors(i, n);
    }
}

/// A signal that is longer than its padding is mirrored once at each end.
pub proof fn long_signals_are_mirrored_once<T>(signal: Seq<T>, pad: int, k: int)
    requires
        0 <= pad < signal.len(),
        0 <= k < pad,
    ensures
        reflected(signal, pad)[k] == signal[pad - k],
        reflected(signal, pad)[pad + signal.len() + k] == signal[signal.len() - 2 - k],
{
    let n = signal.len() as int;
    folding_mirrors(pad - k, n);
    folding_mirrors(n + k, n);
    folding_mirrors(n - 2 - k, n);
}

/// How many feature frames a signal of `samples` samples has.
pub fn frame_count(samples: usize) -> (n: usize)
    requires
        samples < usize::MAX,
    ensures
        n == 1 + samples as int / HOP as int,
        160 * (n - 1) <= samples < 160 * n,
{
    1 + samples / HOP
}

/// The samples under the analysis window of one frame: `N_FFT` of the padded
/// signal from every `HOP`th on, and `zero` beyond it.
pub fn padded_frame<T: Copy>(signal: &Vec<T>, frame: usize, zero: T) -> (out: Vec<T>)
    requires
        frame * HOP + N_FFT <= usize::MAX,
    ensures
        out@ == Seq::new(
            N_FFT as nat,
            |j: int|
                if frame * HOP + j < signal@.len() {
                    signal@[frame * HOP + j]
                } else {
                    zero
                },
        ),
{
    let mut out: Vec<T> = Vec::new();
    let mut j: usize = 0;
    while j < N_FFT
        invariant
            frame * HOP + N_FFT <= usize::MAX,
            j <= N_FFT,
            out@.len() == j,
            forall|i: int|
                0 <= i < j ==> #[trigger] out@[i] == if frame * HOP + i < signal@.len() {
                    signal@[frame * HOP + i]
                } else {
                    zero
                },
        decreases N_FFT - j,
    {
        let at: usize = frame * HOP + j;
        out.push(
            if at < signal.len() {
                signal[at]
            } else {
                zero
            },
        );
        j += 1;
    }
    out
}

/// How many of `frames` frames fit the window of the offline model.
pub open spec fn fitting(frames: int) -> int {
    if frames < INPUT_FRAMES {
        frames
    } else {
        INPUT_FRAMES as int
    }
}

/// The features as the offline model takes them: its bins one by one, cut or
/// filled up with `zero` to the frames of its window.
pub fn to_fixed<T: Copy>(feat: &Vec<Vec<T>>, frames: usize, zero: T) -> (out: Vec<T>)
    requires
        feat@.len() >= INPUT_BINS,
        is_matrix(feat@.take(INPUT_BINS as int), INPUT_BINS as int, fitting(frames as int)),
    ensures
        out@ == window(
            feat@.take(INPUT_BINS as int),
            0,
            fitting(frames as int),
            INPUT_FRAMES as int,
            zero,
        ),
{
    let kept: usize = if frames < INPUT_FRAMES {
        frames
    } else {
        INPUT_FRAMES
    };
    copy_window(feat, INPUT_BINS, 0, kept, INPUT_FRAMES, zero)
}

/// Every feature that fits the window is there, and behind the frames there is
/// `zero`, whatever the features hold there.
pub proof fn fixed_window_keeps_features<T>(feat: Seq<Vec<T>>, frames: int, zero: T, bin: int, f: int)
    requires
        feat.len() >= INPUT_BINS,
        0 <= frames,
        0 <= bin < INPUT_BINS,
        0 <= f < INPUT_FRAMES,
    ensures
        window(feat.take(INPUT_BINS as int), 0, fitting(frames), INPUT_FRAMES as int, zero)[bin
            * INPUT_FRAMES + f] == if f < frames {
            feat[bin]@[f]
        } else {
            zero
        },
        window(feat.take(INPUT_BINS as int), 0, fitting(frames), INPUT_FRAMES as int, zero).len() == 80
            * 2005,
{
}

// ---------------------------------------------------------------------------
// Filterbank
// ---------------------------------------------------------------------------

/// Why a file of filters cannot be used.
#[derive(Debug)]
pub enum FilterError {
    /// It is no JSON document.
    Json(serde_json::Error),
    /// The filters are no array.
    NotArray,
    /// There are no filters.
    Empty,
    /// The filter of this number is no array.
    RowNotArray(usize),
}

/// The filters of a JSON document: its member `filters`, or else the document
/// itself.
pub open spec fn filters_in(document: Json) -> Json {
    match member(document, "filters"@) {
        Some(filters) => filters,
        None => document,
    }
}

/// Parses a file of filters.
pub fn parse_filters(text: &str) -> (r: Result<serde_json::Value, FilterError>)
    ensures
        match json_document(text@) {
            Some(document) => r matches Ok(value) && json_value(value) == document,
            None => r matches Err(FilterError::Json(_)),
        },
{
    match parse(text) {
        Ok(value) => Ok(value),
        Err(error) => Err(FilterError::Json(error)),
    }
}

/// The values of the filters of a JSON document, row by row.
pub fn filter_cells<'a>(value: &'a serde_json::Value) -> (r: Result<
    Vec<&'a Vec<serde_json::Value>>,
    FilterError,
>)
    ensures
        match filters_in(json_value(*value)) {
            Json::List(rows) => if rows.len() == 0 {
                r matches Err(FilterError::Empty)
            } else if forall|i: int| 0 <= i < rows.len() ==> (#[trigger] rows[i]) is List {
                &&& r matches Ok(cells)
                &&& cells@.len() == rows.len()
                &&& forall|i: int|
                    0 <= i < rows.len() ==> rows[i] == Json::List(
                        Seq::new((#[trigger] cells@[i])@.len(), |j: int| json_value(cells@[i]@[j])),
                    )
            } else {
                &&& r matches Err(FilterError::RowNotArray(k))
                &&& 0 <= k < rows.len()
                &&& !(rows[k as int] is List)
                &&& forall|i: int| 0 <= i < k ==> (#[trigger] rows[i]) is List
            },
            _ => r matches Err(FilterError::NotArray),
        },
{
    let table: &serde_json::Value = match get(value, "filters") {
        Some(filters) => filters,
        None => value,
    };
    let rows: &Vec<serde_json::Value> = match as_array(table) {
        Some(rows) => rows,
        None => return Err(FilterError::NotArray),
    };
    if rows.len() == 0 {
        return Err(FilterError::Empty);
    }
    let ghost list = Seq::new(rows@.len(), |i: int| json_value(rows@[i]));
    let mut cells: Vec<&'a Vec<serde_json::Value>> = Vec::new();
    let mut i: usize = 0;
    while i < rows.len()
        invariant
            i <= rows.len(),
            list == Seq::new(rows@.len(), |i: int| json_value(rows@[i])),
            filters_in(json_value(*value)) == Json::List(list),
            list.len() > 0,
            cells@.len() == i,
            forall|k: int| 0 <= k < i ==> (#[trigger] list[k]) is List,
            forall|k: int|
                0 <= k < i ==> list[k] == Json::List(
                    Seq::new((#[trigger] cells@[k])@.len(), |j: int| json_value(cells@[k]@[j])),
                ),
        decreases rows.len() - i,
    {
        assert(list[i as int] == json_value(rows@[i as int]));
        match as_array(&rows[i]) {
            Some(row) => cells.push(row),
            None => return Err(FilterError::RowNotArray(i)),
        }
        i += 1;
    }
    Ok(cells)
}

/// The rows of a table one behind the other.
pub open spec fn flattened<T>(rows: Seq<Vec<T>>) -> Seq<T>
    decreases rows.len(),
{
    if rows.len() == 0 {
        Seq::empty()
    } else {
        flattened(rows.drop_last()) + rows.last()@
    }
}

/// A filterbank that is no rectangular table.
#[derive(Debug, Clone, Copy, PartialEq, Eq, Structural)]
pub struct Ragged;

/// The filterbank of a table of numbers, a row per filter. A table that does
/// not have as many rows as there are filters has them as columns.
pub fn filterbank<T: Copy>(rows: &Vec<Vec<T>>) -> (r: Result<Vec<Vec<T>>, Ragged>)
    requires
        rows@.len() > 0,
    ensures
        ({
            let height = rows@.len() as int;
            let width = rows@[0]@.len() as int;
            let flat = flattened(rows@);
            if flat.len() != height * width {
                r is Err
            } else if height == INPUT_BINS {
                &&& r matches Ok(filters)
                &&& filters@.len() == height
                &&& forall|m: int|
                    0 <= m < height ==> (#[trigger] filters@[m])@ == Seq::new(
                        width as nat,
                        |j: int| flat[m * width + j],
                    )
            } else {
                &&& r matches Ok(filters)
                &&& filters@.len() == width
                &&& forall|m: int|
                    0 <= m < width ==> (#[trigger] filters@[m])@ == Seq::new(
                        height as nat,
                        |j: int| flat[j * width + m],
                    )
            }
        }),
{
    let height: usize = rows.len();
    let width: usize = rows[0].len();
    let mut flat: Vec<T> = Vec::new();
    let mut i: usize = 0;
    while i < height
        invariant
            height == rows.len(),
            i <= height,
            flat@ == flattened(rows@.take(i as int)),
        decreases height - i,
    {
        let row = &rows[i];
        let ghost before = flat@;
        let mut j: usize = 0;
        while j < row.len()
            invariant
                j <= row.len(),
                flat@ == before + row@.take(j as int),
            decreases row.len() - j,
        {
            flat.push(row[j]);
            assert(row@.take(j + 1) == row@.take(j as int).push(row@[j as int]));
            j += 1;
        }
        assert(row@.take(row@.len() as int) == row@);
        assert(rows@.take(i + 1).drop_last() == rows@.take(i as int));
        assert(rows@.take(i + 1).last() == row);
        i += 1;
    }
    assert(rows@.take(height as int) == rows@);
    assert(0 <= height * width <= 0xFFFF_FFFF_FFFF_FFFFu64 * 0xFFFF_FFFF_FFFF_FFFFu64)
        by (nonlinear_arith)
        requires
            0 <= height <= 0xFFFF_FFFF_FFFF_FFFFu64,
            0 <= width <= 0xFFFF_FFFF_FFFF_FFFFu64,
    ;
    if flat.len() as u128 != height as u128 * width as u128 {
        return Err(Ragged);
    }
    let across: bool = height == INPUT_BINS;
    let (filters, bins): (usize, usize) = if across {
        (height, width)
    } else {
        (width, height)
    };
    let mut out: Vec<Vec<T>> = Vec::new();
    let mut m: usize = 0;
    while m < filters
        invariant
            flat@.len() == height * width,
            flat@ == flattened(rows@),
            across ==> filters == height && bins == width,
            !across ==> filters == width && bins == height,
            m <= filters,
            out@.len() == m,
            forall|k: int|
                0 <= k < m ==> (#[trigger] out@[k])@ == Seq::new(
                    bins as nat,
                    |j: int|
                        if across {
                            flat@[k * width + j]
                        } else {
                            flat@[j * width + k]
                        },
                ),
        decreases filters - m,
    {
        let mut filter: Vec<T> = Vec::new();
        let mut j: usize = 0;
        while j < bins
            invariant
                flat@.len() == height * width,
                across ==> filters == height && bins == width,
                !across ==> filters == width && bins == height,
                m < filters,
                j <= bins,
                filter@.len() == j,
                forall|k: int|
                    0 <= k < j ==> #[trigger] filter@[k] == if across {
                        flat@[m * width + k]
                    } else {
                        flat@[k * width + m]
                    },
            decreases bins - j,
        {
            proof {
                assert(flat@.len() == flat.len());
                if across {
                    table_position(m as int, j as int, height as int, width as int);
                } else {
                    table_position(j as int, m as int, height as int, width as int);
                }
            }
            filter.push(
                if across {
                    flat[m * width + j]
                } else {
                    flat[j * width + m]
                },
            );
            j += 1;
        }
        out.push(filter);
        m += 1;
    }
    assert(out@.len() == filters);
    proof {
        assert forall|k: int| across && 0 <= k < height implies (#[trigger] out@[k])@ == Seq::new(
            width as nat,
            |j: int| flat@[k * width + j],
        ) by {}
        assert forall|k: int| !across && 0 <= k < width implies (#[trigger] out@[k])@ == Seq::new(
            height as nat,
            |j: int| flat@[j * width + k],
        ) by {}
    }
    Ok(out)
}

proof fn table_position(row: int, column: int, height: int, width: int)
    requires
        0 <= row < height,
        0 <= column < width,
    ensures
        0 <= row * width <= row * width + column < height * width,
{
    assert(0 <= row * width && row * width + column < height * width) by (nonlinear_arith)
        requires
            0 <= row < height,
            0 <= column < width,
    ;
}

/// The shapes of the analysis.
pub proof fn analysis_has_its_shape()
    ensures
        N_FFT == 512,
        HOP == 160,
        PAD == 256,
{
}

/// The rows of a table follow each other, whole and in order.
pub proof fn rows_follow_each_other<T>(rows: Seq<Vec<T>>, row: Vec<T>)
    ensures
        flattened(Seq::<Vec<T>>::empty()) == Seq::<T>::empty(),
        flattened(rows.push(row)) == flattened(rows) + row@,
{
    assert(rows.push(row).drop_last() == rows);
}

/// The filters are the member `filters` of the document where it has one, and
/// else the document itself.
pub proof fn filters_are_named_or_the_document(document: Json)
    ensures
        member(document, "filters"@) matches Some(filters) ==> filters_in(document) == filters,
        member(document, "filters"@) is None ==> filters_in(document) == document,
{
}

} // verus!
