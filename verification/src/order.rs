//! Stable ordering and selection.

use vstd::prelude::*;

use crate::score::{descending_key, total_rank};

verus! {

/// A sort key: three numbers that are compared one after the other.
#[derive(Clone, Copy, Debug, PartialEq, Eq)]
pub struct Key {
    pub first: u64,
    pub second: u64,
    pub third: u64,
}

/// `a` comes before `b` by the first number in which they differ.
pub open spec fn key_below(a: Key, b: Key) -> bool {
    ||| a.first < b.first
    ||| a.first == b.first && a.second < b.second
    ||| a.first == b.first && a.second == b.second && a.third < b.third
}

/// Position `i` comes before position `j`: its key is smaller, or the keys
/// are equal and `i` is smaller.
pub open spec fn precedes(keys: Seq<Key>, i: int, j: int) -> bool {
    key_below(keys[i], keys[j]) || (keys[i] == keys[j] && i < j)
}

/// `order` lists positions of `keys`, each before all that follow it.
pub open spec fn ascending(keys: Seq<Key>, order: Seq<usize>) -> bool {
    forall|p: int, q: int|
        0 <= p < q < order.len() ==> precedes(keys, #[trigger] order[p] as int, #[trigger] order[q] as int)
}

/// `order` lists exactly the positions from `lo` up to `hi`, as many entries
/// as there are positions.
pub open spec fn covers(order: Seq<usize>, lo: int, hi: int) -> bool {
    &&& order.len() == hi - lo
    &&& forall|p: int| 0 <= p < order.len() ==> lo <= #[trigger] order[p] < hi
    &&& forall|i: usize| lo <= i < hi ==> #[trigger] order.contains(i)
}

/// `order` is the stable ascending order of `keys`.
pub open spec fn is_stable_order(keys: Seq<Key>, order: Seq<usize>) -> bool {
    covers(order, 0, keys.len() as int) && ascending(keys, order)
}

/// The stable ascending order of `keys`.
pub open spec fn stable_order(keys: Seq<Key>) -> Seq<usize> {
    choose|order: Seq<usize>| is_stable_order(keys, order)
}

/// Whether position `i` comes before position `j`.
fn comes_before(keys: &Vec<Key>, i: usize, j: usize) -> (b: bool)
    requires
        i < keys.len(),
        j < keys.len(),
    ensures
        b == precedes(keys@, i as int, j as int),
{
    let a = keys[i];
    let b = keys[j];
    if a.first != b.first {
        a.first < b.first
    } else if a.second != b.second {
        a.second < b.second
    } else if a.third != b.third {
        a.third < b.third
    } else {
        i < j
    }
}

/// Merges two ascending lists of positions.
fn merge(keys: &Vec<Key>, left: &Vec<usize>, right: &Vec<usize>, lo: usize, mid: usize, hi: usize) -> (out: Vec<usize>)
    requires
        lo <= mid <= hi <= keys.len(),
        covers(left@, lo as int, mid as int),
        covers(right@, mid as int, hi as int),
        ascending(keys@, left@),
        ascending(keys@, right@),
    ensures
        covers(out@, lo as int, hi as int),
        ascending(keys@, out@),
{
    let mut out: Vec<usize> = Vec::new();
    let mut a: usize = 0;
    let mut b: usize = 0;
    while a < left.len() || b < right.len()
        invariant
            lo <= mid <= hi <= keys.len(),
            covers(left@, lo as int, mid as int),
            covers(right@, mid as int, hi as int),
            ascending(keys@, left@),
            ascending(keys@, right@),
            a <= left.len(),
            b <= right.len(),
            out.len() == a + b,
            ascending(keys@, out@),
            forall|p: int| 0 <= p < out.len() ==> lo <= #[trigger] out@[p] < hi,
            forall|p: int| 0 <= p < a ==> out@.contains(#[trigger] left@[p]),
            forall|p: int| 0 <= p < b ==> out@.contains(#[trigger] right@[p]),
            forall|p: int, q: int|
                0 <= p < out.len() && a <= q < left.len() ==> precedes(
                    keys@,
                    #[trigger] out@[p] as int,
                    #[trigger] left@[q] as int,
                ),
            forall|p: int, q: int|
                0 <= p < out.len() && b <= q < right.len() ==> precedes(
                    keys@,
                    #[trigger] out@[p] as int,
                    #[trigger] right@[q] as int,
                ),
        decreases left.len() - a + right.len() - b,
    {
        let ghost before = out@;
        let from_left: bool = b >= right.len() || (a < left.len() && comes_before(
            keys,
            left[a],
            right[b],
        ));
        let next: usize = if from_left {
            left[a]
        } else {
            right[b]
        };
        out.push(next);
        proof {
            assert(out@[before.len() as int] == next);
            assert forall|x: usize| before.contains(x) implies out@.contains(x) by {
                let k = choose|k: int| 0 <= k < before.len() && before[k] == x;
                assert(out@[k] == x);
            }
            assert(out@.contains(next));
            if !from_left && a < left.len() {
                // Keys and positions order any two distinct positions.
                assert(precedes(keys@, next as int, left@[a as int] as int));
            }
        }
        if from_left {
            a += 1;
        } else {
            b += 1;
        }
    }
    proof {
        assert forall|i: usize| lo <= i < hi implies #[trigger] out@.contains(i) by {
            if i < mid {
                assert(left@.contains(i));
                let p = choose|p: int| 0 <= p < left@.len() && left@[p] == i;
                assert(out@.contains(left@[p]));
            } else {
                assert(right@.contains(i));
                let p = choose|p: int| 0 <= p < right@.len() && right@[p] == i;
                assert(out@.contains(right@[p]));
            }
        }
    }
    out
}

/// The positions from `lo` up to `hi`, in ascending order.
fn sort_range(keys: &Vec<Key>, lo: usize, hi: usize) -> (out: Vec<usize>)
    requires
        lo <= hi <= keys.len(),
    ensures
        covers(out@, lo as int, hi as int),
        ascending(keys@, out@),
    decreases hi - lo,
{
    if hi - lo == 0 {
        return Vec::new();
    }
    if hi - lo == 1 {
        let mut one: Vec<usize> = Vec::new();
        one.push(lo);
        assert(one@[0] == lo);
        return one;
    }
    let mid: usize = lo + (hi - lo) / 2;
    let left = sort_range(keys, lo, mid);
    let right = sort_range(keys, mid, hi);
    merge(keys, &left, &right, lo, mid, hi)
}

/// The stable ascending order of `keys`: every position once, by key, and
/// positions with equal keys as they stand.
pub fn order_by(keys: &Vec<Key>) -> (order: Vec<usize>)
    ensures
        is_stable_order(keys@, order@),
        order@ == stable_order(keys@),
{
    let order = sort_range(keys, 0, keys.len());
    proof {
        assert(is_stable_order(keys@, order@));
        stable_order_is_unique(keys@, order@, stable_order(keys@));
    }
    order
}

/// A list that covers a range of positions in ascending order names each of
/// them once.
pub proof fn ascending_is_distinct(keys: Seq<Key>, order: Seq<usize>)
    requires
        ascending(keys, order),
    ensures
        order.no_duplicates(),
{
    assert forall|p: int, q: int| 0 <= p < order.len() && 0 <= q < order.len() && p != q implies order[p]
        != order[q] by {
        if p < q {
            assert(precedes(keys, order[p] as int, order[q] as int));
        } else {
            assert(precedes(keys, order[q] as int, order[p] as int));
        }
    }
}

/// Keys have one stable ascending order.
pub proof fn stable_order_is_unique(keys: Seq<Key>, a: Seq<usize>, b: Seq<usize>)
    requires
        is_stable_order(keys, a),
        is_stable_order(keys, b),
    ensures
        a == b,
{
    let n = keys.len() as int;
    assert forall|p: int| 0 <= p < n implies a[p] == b[p] by {
        same_entry(keys, a, b, p);
    }
    assert(a == b);
}

proof fn same_entry(keys: Seq<Key>, a: Seq<usize>, b: Seq<usize>, p: int)
    requires
        is_stable_order(keys, a),
        is_stable_order(keys, b),
        0 <= p < keys.len(),
    ensures
        a[p] == b[p],
    decreases p,
{
    assert forall|q: int| 0 <= q < p implies a[q] == b[q] by {
        same_entry(keys, a, b, q);
    }
    if a[p] != b[p] {
        let x = a[p];
        let y = b[p];
        assert(b.contains(x));
        assert(a.contains(y));
        let i = choose|i: int| 0 <= i < b.len() && b[i] == x;
        let j = choose|j: int| 0 <= j < a.len() && a[j] == y;
        ascending_is_distinct(keys, a);
        ascending_is_distinct(keys, b);
        if i < p {
            assert(a[i] == x);
        }
        if j < p {
            assert(b[j] == y);
        }
        assert(precedes(keys, y as int, x as int));
        assert(precedes(keys, x as int, y as int));
    }
}

/// Every list of keys has its stable ascending order.
pub proof fn stable_order_exists(keys: Seq<Key>)
    requires
        keys.len() <= usize::MAX,
    ensures
        is_stable_order(keys, stable_order(keys)),
{
    let order = sorted_positions(keys, keys.len());
    assert(is_stable_order(keys, order));
}

/// The items at the positions that `order` lists.
pub open spec fn reordered<A>(items: Seq<A>, order: Seq<usize>) -> Seq<A> {
    Seq::new(order.len(), |p: int| items[order[p] as int])
}

/// Listing every position once keeps all items, each as often as before.
pub proof fn reordering_keeps_items<A>(items: Seq<A>, order: Seq<usize>)
    requires
        items.len() <= usize::MAX,
        covers(order, 0, items.len() as int),
        order.no_duplicates(),
    ensures
        reordered(items, order).to_multiset() == items.to_multiset(),
    decreases items.len(),
{
    let all = reordered(items, order);
    if items.len() == 0 {
        assert(all == items);
    } else {
        let last = items.len() - 1;
        assert(order.contains(last as usize));
        let p = choose|p: int| 0 <= p < order.len() && order[p] == last as usize;
        let rest = order.remove(p);
        assert forall|i: usize| 0 <= i < last implies #[trigger] rest.contains(i) by {
            assert(order.contains(i));
            let k = choose|k: int| 0 <= k < order.len() && order[k] == i;
            if k < p {
                assert(rest[k] == i);
            } else {
                assert(rest[k - 1] == i);
            }
        }
        assert forall|q: int| 0 <= q < rest.len() implies 0 <= #[trigger] rest[q] < last by {
            let k = if q < p {
                q
            } else {
                q + 1
            };
            assert(rest[q] == order[k]);
            assert(order[k] != order[p]);
        }
        reordering_keeps_items(items.drop_last(), rest);
        assert(reordered(items.drop_last(), rest) == all.remove(p));
        vstd::seq_lib::to_multiset_remove(all, p);
        vstd::seq_lib::to_multiset_remove(items, last);
        assert(items.remove(last) == items.drop_last());
        assert(all[p] == items[last]);
        vstd::seq_lib::to_multiset_contains(all, all[p]);
        vstd::seq_lib::to_multiset_contains(items, items[last]);
        assert(all.to_multiset() == all.to_multiset().remove(all[p]).insert(all[p]));
        assert(items.to_multiset() == items.to_multiset().remove(all[p]).insert(all[p]));
    }
}

// ---------------------------------------------------------------------------
// Selection by score
// ---------------------------------------------------------------------------

/// Entry `j` stands above entry `i`: its score is higher in the total order,
/// or the scores are the same and `j` comes first.
pub open spec fn outranks(scores: Seq<u32>, j: int, i: int) -> bool {
    ||| total_rank(scores[j]) > total_rank(scores[i])
    ||| total_rank(scores[j]) == total_rank(scores[i]) && j < i
}

/// The entries that stand above entry `i`.
pub open spec fn superiors(scores: Seq<u32>, i: int) -> Set<usize> {
    Set::new(|j: usize| j < scores.len() && outranks(scores, j as int, i))
}

/// Entry `i` is among the `k` highest.
pub open spec fn among_top(scores: Seq<u32>, k: nat, i: int) -> bool {
    superiors(scores, i).len() < k
}

/// Marks the `k` highest of `scores`; of equal ones, those that come first.
pub fn select_top(scores: &Vec<u32>, k: usize) -> (marks: Vec<bool>)
    ensures
        marks.len() == scores.len(),
        forall|i: int| 0 <= i < scores.len() ==> #[trigger] marks@[i] == among_top(scores@, k as nat, i),
{
    let mut keys: Vec<Key> = Vec::new();
    let mut marks: Vec<bool> = Vec::new();
    let mut i: usize = 0;
    while i < scores.len()
        invariant
            i <= scores.len(),
            keys.len() == i,
            marks.len() == i,
            forall|j: int| 0 <= j < i ==> !#[trigger] marks@[j],
            forall|j: int|
                0 <= j < i ==> #[trigger] keys@[j].first == 0x7FFF_FFFF - total_rank(scores@[j])
                    && keys@[j].second == 0 && keys@[j].third == 0,
        decreases scores.len() - i,
    {
        keys.push(Key { first: descending_key(scores[i]), second: 0, third: 0 });
        marks.push(false);
        i += 1;
    }
    let order = order_by(&keys);
    proof {
        ascending_is_distinct(keys@, order@);
    }
    let mut p: usize = 0;
    while p < order.len() && p < k
        invariant
            p <= order.len(),
            p <= k,
            order.len() == scores.len(),
            marks.len() == scores.len(),
            order@.no_duplicates(),
            forall|q: int| 0 <= q < order.len() ==> #[trigger] order@[q] < scores.len(),
            forall|q: int| 0 <= q < order.len() ==> marks@[#[trigger] order@[q] as int] == (q < p),
        decreases order.len() - p,
    {
        let at: usize = order[p];
        marks.set(at, true);
        p += 1;
    }
    proof {
        assert forall|i: int| 0 <= i < scores.len() implies #[trigger] marks@[i] == among_top(scores@, k as nat, i) by {
            assert(order@.contains(i as usize));
            let q = choose|q: int| 0 <= q < order@.len() && order@[q] == i as usize;
            standing_is_position(scores@, keys@, order@, q);
        }
    }
    marks
}

/// The positions of the `k` highest of `scores`, ascending.
pub open spec fn top_positions(scores: Seq<u32>, k: nat) -> Seq<usize> {
    all_positions(scores.len()).filter(|i: usize| among_top(scores, k, i as int))
}

/// The positions below `n`, ascending.
pub open spec fn all_positions(n: nat) -> Seq<usize> {
    Seq::new(n, |i: int| i as usize)
}

/// The positions of the `k` highest of `scores`, ascending; of equal ones,
/// those that come first.
pub fn find_top(scores: &Vec<u32>, k: usize) -> (out: Vec<usize>)
    ensures
        out@ == top_positions(scores@, k as nat),
{
    let marks = select_top(scores, k);
    let mut out: Vec<usize> = Vec::new();
    let mut i: usize = 0;
    let ghost all = all_positions(scores@.len());
    let ghost wanted = |i: usize| among_top(scores@, k as nat, i as int);
    assert(all.take(0).filter(wanted) == Seq::<usize>::empty()) by {
        reveal(Seq::filter);
    }
    while i < scores.len()
        invariant
            i <= scores.len(),
            marks.len() == scores.len(),
            all == all_positions(scores@.len()),
            wanted == (|i: usize| among_top(scores@, k as nat, i as int)),
            forall|i: int|
                0 <= i < scores.len() ==> #[trigger] marks@[i] == among_top(scores@, k as nat, i),
            out@ == all.take(i as int).filter(wanted),
        decreases scores.len() - i,
    {
        proof {
            let done = all.take(i + 1);
            assert(done.drop_last() == all.take(i as int));
            assert(done.last() == i);
            assert(marks@[i as int] == wanted(i));
            reveal(Seq::filter);
        }
        if marks[i] {
            out.push(i);
        }
        i += 1;
    }
    assert(all.take(scores@.len() as int) == all);
    out
}

/// The `k` highest are `k`, or all there are. They are listed in ascending
/// order, and a position is listed exactly where it is among the highest.
pub proof fn top_positions_are_complete(scores: Seq<u32>, k: nat)
    requires
        scores.len() <= usize::MAX,
    ensures
        top_positions(scores, k).len() == if k < scores.len() {
            k
        } else {
            scores.len()
        },
        forall|p: int, q: int|
            0 <= p < q < top_positions(scores, k).len() ==> #[trigger] top_positions(scores, k)[p]
                < #[trigger] top_positions(scores, k)[q],
        forall|i: usize| #[trigger]
            top_positions(scores, k).contains(i) <==> i < scores.len() && among_top(scores, k, i as int),
{
    let keys = Seq::new(
        scores.len(),
        |i: int| Key { first: (0x7FFF_FFFF - total_rank(scores[i])) as u64, second: 0, third: 0 },
    );
    let order = sorted_positions(keys, scores.len());
    let all = all_positions(scores.len());
    let wanted = |i: usize| among_top(scores, k, i as int);
    let top = top_positions(scores, k);
    filtered_positions(scores.len(), wanted);
    let m: int = if k < scores.len() {
        k as int
    } else {
        scores.len() as int
    };
    let head = order.take(m);
    ascending_is_distinct(keys, order);
    assert(head.no_duplicates());
    assert forall|i: usize| top.to_set().contains(i) <==> head.to_set().contains(i) by {
        if i < scores.len() {
            assert(order.contains(i));
            let q = choose|q: int| 0 <= q < order.len() && order[q] == i;
            standing_is_position(scores, keys, order, q);
            if q < m {
                assert(head[q] == i);
            }
            if head.contains(i) {
                let r = choose|r: int| 0 <= r < head.len() && head[r] == i;
                assert(order[r] == order[q]);
            }
        } else if head.contains(i) {
            let r = choose|r: int| 0 <= r < head.len() && head[r] == i;
            assert(order[r] == i);
        }
    }
    assert(top.to_set() =~= head.to_set());
    head.unique_seq_to_set();
    top.unique_seq_to_set();
}

/// The positions below `n` that a predicate picks are ascending, and are
/// those that it holds of.
proof fn filtered_positions(n: nat, wanted: spec_fn(usize) -> bool)
    requires
        n <= usize::MAX,
    ensures
        forall|p: int, q: int|
            #![auto]
            0 <= p < q < all_positions(n).filter(wanted).len() ==> all_positions(n).filter(wanted)[p]
                < all_positions(n).filter(wanted)[q],
        all_positions(n).filter(wanted).no_duplicates(),
        forall|i: usize| #[trigger]
            all_positions(n).filter(wanted).contains(i) <==> i < n && wanted(i),
    decreases n,
{
    reveal(Seq::filter);
    let all = all_positions(n);
    let top = all.filter(wanted);
    if n > 0 {
        let m = (n - 1) as nat;
        filtered_positions(m, wanted);
        let before = all_positions(m).filter(wanted);
        assert(all.drop_last() == all_positions(m));
        assert(all.last() == m as usize);
        assert forall|p: int| 0 <= p < before.len() implies #[trigger] before[p] < m by {
            assert(before.contains(before[p]));
        }
        if wanted(m as usize) {
            assert(top == before.push(m as usize));
            assert forall|i: usize| #[trigger] top.contains(i) <==> i < n && wanted(i) by {
                if top.contains(i) {
                    let p = choose|p: int| 0 <= p < top.len() && top[p] == i;
                    if p < before.len() {
                        assert(before.contains(i));
                    }
                }
                if i < n && wanted(i) {
                    if i < m {
                        assert(before.contains(i));
                        let p = choose|p: int| 0 <= p < before.len() && before[p] == i;
                        assert(top[p] == i);
                    } else {
                        assert(top[before.len() as int] == i);
                    }
                }
            }
        } else {
            assert(top == before);
        }
    }
}

/// A stable ascending order of the first `n` keys.
proof fn sorted_positions(keys: Seq<Key>, n: nat) -> (order: Seq<usize>)
    requires
        n <= keys.len() <= usize::MAX,
    ensures
        covers(order, 0, n as int),
        ascending(keys, order),
    decreases n,
{
    if n == 0 {
        Seq::empty()
    } else {
        let m = (n - 1) as usize;
        let before = sorted_positions(keys, m as nat);
        let p = insertion_point(keys, before, m, 0);
        let order = before.insert(p, m);
        assert forall|i: usize| 0 <= i < n implies #[trigger] order.contains(i) by {
            if i == m {
                assert(order[p] == m);
            } else {
                assert(before.contains(i));
                let k = choose|k: int| 0 <= k < before.len() && before[k] == i;
                if k < p {
                    assert(order[k] == i);
                } else {
                    assert(order[k + 1] == i);
                }
            }
        }
        order
    }
}

/// Where position `m` goes in an ascending list that does not name it.
proof fn insertion_point(keys: Seq<Key>, order: Seq<usize>, m: usize, from: int) -> (p: int)
    requires
        0 <= from <= order.len(),
        ascending(keys, order),
        forall|q: int| 0 <= q < order.len() ==> #[trigger] order[q] < m,
        forall|q: int| 0 <= q < from ==> precedes(keys, #[trigger] order[q] as int, m as int),
    ensures
        0 <= p <= order.len(),
        forall|q: int| 0 <= q < p ==> precedes(keys, #[trigger] order[q] as int, m as int),
        forall|q: int| p <= q < order.len() ==> precedes(keys, m as int, #[trigger] order[q] as int),
    decreases order.len() - from,
{
    if from < order.len() && precedes(keys, order[from] as int, m as int) {
        insertion_point(keys, order, m, from + 1)
    } else {
        if from < order.len() {
            assert forall|q: int| from <= q < order.len() implies precedes(
                keys,
                m as int,
                #[trigger] order[q] as int,
            ) by {
                if q > from {
                    assert(precedes(keys, order[from] as int, order[q] as int));
                }
            }
        }
        from
    }
}

/// In the descending order of the scores, an entry's position is the number
/// of entries above it.
proof fn standing_is_position(scores: Seq<u32>, keys: Seq<Key>, order: Seq<usize>, p: int)
    requires
        keys.len() == scores.len(),
        forall|j: int|
            0 <= j < scores.len() ==> #[trigger] keys[j].first == 0x7FFF_FFFF - total_rank(scores[j])
                && keys[j].second == 0 && keys[j].third == 0,
        is_stable_order(keys, order),
        0 <= p < order.len(),
    ensures
        superiors(scores, order[p] as int).len() == p,
{
    let above = superiors(scores, order[p] as int);
    let head = order.take(p);
    ascending_is_distinct(keys, order);
    assert(head.no_duplicates());
    assert forall|j: usize| above.contains(j) <==> head.to_set().contains(j) by {
        if above.contains(j) {
            assert(order.contains(j));
            let q = choose|q: int| 0 <= q < order.len() && order[q] == j;
            assert(precedes(keys, j as int, order[p] as int));
            if q > p {
                assert(precedes(keys, order[p] as int, order[q] as int));
            }
            assert(q < p);
            assert(head[q] == j);
            assert(head.contains(j));
        }
        if head.to_set().contains(j) {
            assert(head.contains(j));
            let q = choose|q: int| 0 <= q < head.len() && head[q] == j;
            assert(order[q] == j);
            assert(precedes(keys, order[q] as int, order[p] as int));
            assert(j < scores.len());
            assert(keys[j as int].first == 0x7FFF_FFFF - total_rank(scores[j as int]));
            assert(keys[order[p] as int].first == 0x7FFF_FFFF - total_rank(scores[order[p] as int]));
            assert(outranks(scores, j as int, order[p] as int));
        }
    }
    assert(above =~= head.to_set());
    head.unique_seq_to_set();
}

/// What a stable ascending order is: it lists every position once, of two keys
/// the one that is smaller in the first number in which they differ comes
/// first, and equal keys stay as they stand.
pub proof fn stable_order_is_sorted(keys: Seq<Key>, order: Seq<usize>, p: int, q: int)
    requires
        is_stable_order(keys, order),
        0 <= p < q < order.len(),
    ensures
        order.len() == keys.len(),
        order[p] < keys.len(),
        order[q] < keys.len(),
        order[p] != order[q],
        ({
            let (a, b) = (keys[order[p] as int], keys[order[q] as int]);
            &&& a.first <= b.first
            &&& a.first == b.first ==> a.second <= b.second
            &&& a.first == b.first && a.second == b.second ==> a.third <= b.third
            &&& a.first == b.first && a.second == b.second && a.third == b.third ==> order[p]
                < order[q]
        }),
{
    assert(precedes(keys, order[p] as int, order[q] as int));
}

/// No position is missing in a stable ascending order.
pub proof fn stable_order_lists_every_position(keys: Seq<Key>, order: Seq<usize>, i: usize)
    requires
        is_stable_order(keys, order),
        i < keys.len(),
    ensures
        exists|p: int| 0 <= p < order.len() && #[trigger] order[p] == i,
{
    assert(order.contains(i));
}

/// What is selected ranks above what is not: in the total order, or by its
/// place where the scores are the same.
pub proof fn selected_scores_rank_highest(scores: Seq<u32>, k: nat, i: int, j: int)
    requires
        scores.len() <= usize::MAX,
        0 <= i < scores.len(),
        0 <= j < scores.len(),
        among_top(scores, k, i),
        !among_top(scores, k, j),
    ensures
        total_rank(scores[i]) > total_rank(scores[j]) || (total_rank(scores[i]) == total_rank(
            scores[j],
        ) && i < j),
{
    if !outranks(scores, i, j) {
        assert(i != j);
        let (a, b) = (superiors(scores, i), superiors(scores, j));
        assert(b.subset_of(a));
        let all = all_positions(scores.len());
        assert(a.subset_of(all.to_set())) by {
            assert forall|x: usize| a.contains(x) implies all.to_set().contains(x) by {
                assert(all[x as int] == x);
            }
        }
        vstd::seq_lib::seq_to_set_is_finite(all);
        vstd::set_lib::lemma_len_subset(a, all.to_set());
        vstd::set_lib::lemma_len_subset(b, a);
    }
}

} // verus!
