//! The index set of a descending top-k selection, ties included.
//!
//! Among equal values the picks are whatever the introselect of libstdc++'s
//! `std::nth_element` leaves in front. That order is deterministic, and
//! [`topk_pairs`] states it: median-of-three pivots, unguarded partitions, and
//! an insertion sort of the last three pairs.

use crate::float_bits::{before, comes_before, lemma_before_is_rank_order, rank};
use vstd::prelude::*;

verus! {

/// A value's bit pattern and the place it came from.
pub type Pair = (u32, usize);

/// The pairs that a selection starts from.
pub open spec fn tagged(vals: Seq<u32>) -> Seq<Pair> {
    Seq::new(vals.len(), |i: int| (vals[i], i as usize))
}

/// `q` holds every value of `vals` once, each with its place.
pub open spec fn is_arrangement(q: Seq<Pair>, vals: Seq<u32>) -> bool {
    &&& q.len() == vals.len()
    &&& forall|i: int| 0 <= i < q.len() ==> (#[trigger] q[i]).1 < vals.len() && q[i].0 == vals[q[i].1 as int]
    &&& forall|i: int, j: int| 0 <= i < j < q.len() ==> (#[trigger] q[i]).1 != (#[trigger] q[j]).1
    &&& forall|p: int| 0 <= p < vals.len() ==> #[trigger] holds_place(q, p)
}

/// Some pair of `q` came from place `p`.
pub open spec fn holds_place(q: Seq<Pair>, p: int) -> bool {
    exists|i: int| 0 <= i < q.len() && (#[trigger] q[i]).1 == p
}

/// The sequence with two of its places exchanged.
pub open spec fn swapped(q: Seq<Pair>, i: int, j: int) -> Seq<Pair> {
    q.update(i, q[j]).update(j, q[i])
}

/// Which of the places `a`, `b`, `c` holds the median of the three.
pub open spec fn median(q: Seq<Pair>, a: int, b: int, c: int) -> int {
    if before(q[a].0, q[b].0) {
        if before(q[b].0, q[c].0) {
            b
        } else if before(q[a].0, q[c].0) {
            c
        } else {
            a
        }
    } else if before(q[a].0, q[c].0) {
        a
    } else if before(q[b].0, q[c].0) {
        c
    } else {
        b
    }
}

/// The first place from `lo` on whose value does not come before the pivot.
pub open spec fn first_not_before(q: Seq<Pair>, lo: int, pivot: u32) -> int
    decreases q.len() - lo,
{
    if 0 <= lo < q.len() && before(q[lo].0, pivot) {
        first_not_before(q, lo + 1, pivot)
    } else {
        lo
    }
}

/// The last place down from `hi` whose value does not come after the pivot.
pub open spec fn last_not_after(q: Seq<Pair>, hi: int, pivot: u32) -> int
    decreases hi + 1,
{
    if 0 <= hi < q.len() && before(pivot, q[hi].0) {
        last_not_after(q, hi - 1, pivot)
    } else {
        hi
    }
}

/// The two scans of a partition only move towards each other.
pub proof fn lemma_scans_move_inwards(q: Seq<Pair>, lo: int, hi: int, pivot: u32)
    ensures
        first_not_before(q, lo, pivot) >= lo,
        last_not_after(q, hi, pivot) <= hi,
    decreases q.len() - lo,
{
    if 0 <= lo < q.len() && before(q[lo].0, pivot) {
        lemma_scans_move_inwards(q, lo + 1, hi, pivot);
    }
    lemma_scan_down_moves(q, hi, pivot);
}

proof fn lemma_scan_down_moves(q: Seq<Pair>, hi: int, pivot: u32)
    ensures
        last_not_after(q, hi, pivot) <= hi,
    decreases hi + 1,
{
    if 0 <= hi < q.len() && before(pivot, q[hi].0) {
        lemma_scan_down_moves(q, hi - 1, pivot);
    }
}

/// The unguarded partition of the places `lo..hi` about the pivot: the new
/// arrangement and the cut.
pub open spec fn partitioned(q: Seq<Pair>, lo: int, hi: int, pivot: u32) -> (Seq<Pair>, int)
    decreases hi - lo,
{
    let l: int = first_not_before(q, lo, pivot);
    let h: int = last_not_after(q, hi - 1, pivot);
    proof {
        lemma_scans_move_inwards(q, lo, hi - 1, pivot);
    }
    if l >= h {
        (q, l)
    } else {
        partitioned(swapped(q, l, h), l + 1, h, pivot)
    }
}

/// One round of the selection on the places `first..last`: the median of three
/// goes to the front and the rest is partitioned about it.
pub open spec fn select_round(q: Seq<Pair>, first: int, last: int) -> (Seq<Pair>, int) {
    let r: int = median(q, first + 1, first + (last - first) / 2, last - 1);
    let s: Seq<Pair> = swapped(q, first, r);
    partitioned(s, first + 1, last, s[first].0)
}

/// The rounds of the selection, until at most three places are left around
/// `nth`; `None` where `depth` rounds do not suffice.
pub open spec fn select_rounds(q: Seq<Pair>, first: int, last: int, nth: int, depth: nat) -> Option<
    (Seq<Pair>, int, int),
>
    decreases depth,
{
    if last - first <= 3 {
        Some((q, first, last))
    } else if depth == 0 {
        None
    } else {
        let (p, cut) = select_round(q, first, last);
        if cut <= nth {
            select_rounds(p, cut, last, nth, (depth - 1) as nat)
        } else {
            select_rounds(p, first, cut, nth, (depth - 1) as nat)
        }
    }
}

/// The pair at place `j` moved down, past every pair that it comes before, but
/// not below `first`.
pub open spec fn sunk(q: Seq<Pair>, first: int, j: int) -> Seq<Pair>
    decreases j - first,
{
    if first < j && before(q[j].0, q[j - 1].0) {
        sunk(swapped(q, j - 1, j), first, j - 1)
    } else {
        q
    }
}

/// The insertion sort of the places `first..last`, from place `i` on.
pub open spec fn insertion_sorted(q: Seq<Pair>, first: int, i: int, last: int) -> Seq<Pair>
    decreases last - i,
{
    if i >= last {
        q
    } else {
        insertion_sorted(sunk(q, first, i), first, i + 1, last)
    }
}

/// How many binary digits `n` has.
pub open spec fn bit_length(n: nat) -> nat
    decreases n,
{
    if n == 0 {
        0
    } else {
        1 + bit_length(n / 2)
    }
}

/// The arrangement that the selection of the `k` first ends in; `None` where it
/// would take more rounds than twice the binary digits of the length.
pub open spec fn topk_pairs(vals: Seq<u32>, k: int) -> Option<Seq<Pair>> {
    match select_rounds(tagged(vals), 0, vals.len() as int, k - 1, 2 * bit_length(vals.len())) {
        Some((q, first, last)) => Some(insertion_sorted(q, first, first + 1, last)),
        None => None,
    }
}

/// The picks of the selection, in the order it leaves them.
pub open spec fn topk_picks(vals: Seq<u32>, k: int) -> Seq<usize> {
    topk_pairs(vals, k).unwrap().take(k).map_values(|p: Pair| p.1)
}

/// The row lengths and counts that the selection is meant for.
pub open spec fn topk_in_range(n: int, k: int) -> bool {
    &&& 0 < k <= n
    &&& n < k * 64 <= usize::MAX
}

/// The selection ends within its round limit.
pub open spec fn topk_settles(vals: Seq<u32>, k: int) -> bool {
    topk_pairs(vals, k) is Some
}

/// `p` differs from `q` only at the places `first..last`, and there holds
/// nothing that `q` does not hold at those places.
pub open spec fn rearranged(p: Seq<Pair>, q: Seq<Pair>, first: int, last: int) -> bool {
    &&& p.len() == q.len()
    &&& forall|i: int| 0 <= i < q.len() && !(first <= i < last) ==> #[trigger] p[i] == q[i]
    &&& forall|i: int| first <= i < last ==> #[trigger] found_within(p[i], q, first, last)
}

/// `x` is one of the pairs at the places `first..last`.
pub open spec fn found_within(x: Pair, q: Seq<Pair>, first: int, last: int) -> bool {
    exists|j: int| first <= j < last && #[trigger] q[j] == x
}

proof fn lemma_rearranged_reflexive(q: Seq<Pair>, first: int, last: int)
    requires
        0 <= first <= last <= q.len(),
    ensures
        rearranged(q, q, first, last),
{
    assert forall|i: int| first <= i < last implies #[trigger] found_within(q[i], q, first, last) by {
        assert(q[i] == q[i]);
    }
}

proof fn lemma_rearranged_transitive(r: Seq<Pair>, p: Seq<Pair>, q: Seq<Pair>, first: int, last: int)
    requires
        0 <= first <= last <= q.len(),
        rearranged(r, p, first, last),
        rearranged(p, q, first, last),
    ensures
        rearranged(r, q, first, last),
{
    assert forall|i: int| first <= i < last implies #[trigger] found_within(r[i], q, first, last) by {
        assert(found_within(r[i], p, first, last));
        let j: int = choose|j: int| first <= j < last && #[trigger] p[j] == r[i];
        assert(found_within(p[j], q, first, last));
    }
    assert forall|i: int| 0 <= i < q.len() && !(first <= i < last) implies #[trigger] r[i] == q[i] by {
        assert(p[i] == q[i]);
    }
}

proof fn lemma_swapped(q: Seq<Pair>, vals: Seq<u32>, i: int, j: int, first: int, last: int)
    requires
        0 <= first <= i < last <= q.len(),
        first <= j < last,
    ensures
        rearranged(swapped(q, i, j), q, first, last),
        is_arrangement(q, vals) ==> is_arrangement(swapped(q, i, j), vals),
{
    let p: Seq<Pair> = swapped(q, i, j);
    assert(p[i] == q[j] && p[j] == q[i]);
    assert forall|t: int| first <= t < last implies #[trigger] found_within(p[t], q, first, last) by {
        if t == j {
            assert(q[i] == p[t]);
        } else if t == i {
            assert(q[j] == p[t]);
        } else {
            assert(q[t] == p[t]);
        }
    }
    if is_arrangement(q, vals) {
        assert forall|v: int| 0 <= v < vals.len() implies #[trigger] holds_place(p, v) by {
            assert(holds_place(q, v));
            let t: int = choose|t: int| 0 <= t < q.len() && (#[trigger] q[t]).1 == v;
            if t == i {
                assert(p[j].1 == v);
            } else if t == j {
                assert(p[i].1 == v);
            } else {
                assert(p[t].1 == v);
            }
        }
        assert forall|a: int, b: int| 0 <= a < b < p.len() implies (#[trigger] p[a]).1 != (#[trigger] p[b]).1 by {
            let a0: int = if a == i { j } else if a == j { i } else { a };
            let b0: int = if b == i { j } else if b == j { i } else { b };
            assert(p[a] == q[a0] && p[b] == q[b0]);
            assert(q[a0].1 != q[b0].1);
        }
        assert forall|t: int| 0 <= t < p.len() implies (#[trigger] p[t]).1 < vals.len() && p[t].0 == vals[p[t].1 as int] by {
            let t0: int = if t == i { j } else if t == j { i } else { t };
            assert(p[t] == q[t0]);
        }
    }
}

proof fn lemma_first_not_before(q: Seq<Pair>, lo: int, pivot: u32, stop: int)
    requires
        0 <= lo <= stop < q.len(),
        !before(q[stop].0, pivot),
    ensures
        lo <= first_not_before(q, lo, pivot) <= stop,
        !before(q[first_not_before(q, lo, pivot)].0, pivot),
        forall|i: int| lo <= i < first_not_before(q, lo, pivot) ==> before((#[trigger] q[i]).0, pivot),
    decreases stop - lo,
{
    if before(q[lo].0, pivot) {
        lemma_first_not_before(q, lo + 1, pivot, stop);
    }
}

proof fn lemma_last_not_after(q: Seq<Pair>, hi: int, pivot: u32, stop: int)
    requires
        0 <= stop <= hi < q.len(),
        !before(pivot, q[stop].0),
    ensures
        stop <= last_not_after(q, hi, pivot) <= hi,
        !before(pivot, q[last_not_after(q, hi, pivot)].0),
        forall|i: int| last_not_after(q, hi, pivot) < i <= hi ==> before(pivot, (#[trigger] q[i]).0),
    decreases hi + 1,
{
    if before(pivot, q[hi].0) {
        lemma_last_not_after(q, hi - 1, pivot, stop);
    }
}

/// What holds between two swaps of a partition of `first + 1..last` about the
/// value at `first`, with `lo..hi` left to look at.
#[verifier::opaque]
spec fn partition_inv(q: Seq<Pair>, first: int, last: int, lo: int, hi: int) -> bool {
    &&& 0 <= first < lo <= hi <= last <= q.len()
    &&& forall|i: int| first <= i < lo ==> rank((#[trigger] q[i]).0) >= rank(q[first].0)
    &&& forall|i: int| hi <= i < last ==> rank((#[trigger] q[i]).0) <= rank(q[first].0)
    &&& exists|i: int| lo <= i < last && rank((#[trigger] q[i]).0) <= rank(q[first].0)
}

proof fn lemma_partition_scans(q: Seq<Pair>, first: int, last: int, lo: int, hi: int)
    requires
        partition_inv(q, first, last, lo, hi),
    ensures
        ({
            let l: int = first_not_before(q, lo, q[first].0);
            let h: int = last_not_after(q, hi - 1, q[first].0);
            &&& lo <= l < last
            &&& first <= h < hi
            &&& rank(q[l].0) <= rank(q[first].0)
            &&& rank(q[h].0) >= rank(q[first].0)
            &&& forall|i: int| lo <= i < l ==> rank((#[trigger] q[i]).0) > rank(q[first].0)
            &&& forall|i: int| h < i < hi ==> rank((#[trigger] q[i]).0) < rank(q[first].0)
        }),
{
    reveal(partition_inv);
    let pivot: u32 = q[first].0;
    let stop: int = choose|i: int| lo <= i < last && rank((#[trigger] q[i]).0) <= rank(pivot);
    lemma_before_is_rank_order(q[stop].0, pivot);
    lemma_first_not_before(q, lo, pivot, stop);
    lemma_before_is_rank_order(pivot, pivot);
    lemma_last_not_after(q, hi - 1, pivot, first);
    let l: int = first_not_before(q, lo, pivot);
    let h: int = last_not_after(q, hi - 1, pivot);
    lemma_before_is_rank_order(q[l].0, pivot);
    lemma_before_is_rank_order(pivot, q[h].0);
    assert forall|i: int| lo <= i < l implies rank((#[trigger] q[i]).0) > rank(pivot) by {
        lemma_before_is_rank_order(q[i].0, pivot);
    }
    assert forall|i: int| h < i < hi implies rank((#[trigger] q[i]).0) < rank(pivot) by {
        lemma_before_is_rank_order(pivot, q[i].0);
    }
}

proof fn lemma_partition_step(q: Seq<Pair>, first: int, last: int, lo: int, hi: int)
    requires
        partition_inv(q, first, last, lo, hi),
        first_not_before(q, lo, q[first].0) < last_not_after(q, hi - 1, q[first].0),
    ensures
        ({
            let l: int = first_not_before(q, lo, q[first].0);
            let h: int = last_not_after(q, hi - 1, q[first].0);
            &&& swapped(q, l, h)[first] == q[first]
            &&& partition_inv(swapped(q, l, h), first, last, l + 1, h)
        }),
{
    reveal(partition_inv);
    lemma_partition_scans(q, first, last, lo, hi);
    let l: int = first_not_before(q, lo, q[first].0);
    let h: int = last_not_after(q, hi - 1, q[first].0);
    let p: Seq<Pair> = swapped(q, l, h);
    assert(p[l] == q[h] && p[h] == q[l]);
    assert(rank(p[h].0) <= rank(p[first].0));
    assert(l + 1 <= h < last && rank(p[h].0) <= rank(p[first].0));
}

/// A partition keeps the pairs and puts what comes before the pivot in front of
/// the cut, what comes after it behind.
proof fn lemma_partitioned(q: Seq<Pair>, vals: Seq<u32>, first: int, last: int, lo: int, hi: int)
    requires
        partition_inv(q, first, last, lo, hi),
        is_arrangement(q, vals),
    ensures
        ({
            let (p, cut) = partitioned(q, lo, hi, q[first].0);
            &&& is_arrangement(p, vals)
            &&& rearranged(p, q, first, last)
            &&& p[first] == q[first]
            &&& lo <= cut < last
            &&& forall|i: int| first <= i < cut ==> rank((#[trigger] p[i]).0) >= rank(q[first].0)
            &&& forall|i: int| cut <= i < last ==> rank((#[trigger] p[i]).0) <= rank(q[first].0)
        }),
    decreases hi - lo,
{
    reveal(partition_inv);
    lemma_partition_scans(q, first, last, lo, hi);
    let l: int = first_not_before(q, lo, q[first].0);
    let h: int = last_not_after(q, hi - 1, q[first].0);
    if l >= h {
        lemma_rearranged_reflexive(q, first, last);
    } else {
        let s: Seq<Pair> = swapped(q, l, h);
        lemma_partition_step(q, first, last, lo, hi);
        lemma_swapped(q, vals, l, h, first, last);
        lemma_partitioned(s, vals, first, last, l + 1, h);
        let p: Seq<Pair> = partitioned(q, lo, hi, q[first].0).0;
        lemma_rearranged_transitive(p, s, q, first, last);
    }
}

/// After the median of three went to the front, the rest can be partitioned
/// without looking at bounds.
proof fn lemma_median_to_front(q: Seq<Pair>, vals: Seq<u32>, first: int, last: int)
    requires
        0 <= first,
        first + 3 < last <= q.len(),
    ensures
        ({
            let r: int = median(q, first + 1, first + (last - first) / 2, last - 1);
            let s: Seq<Pair> = swapped(q, first, r);
            &&& first < r < last
            &&& partition_inv(s, first, last, first + 1, last)
            &&& rearranged(s, q, first, last)
            &&& is_arrangement(q, vals) ==> is_arrangement(s, vals)
        }),
{
    reveal(partition_inv);
    let a: int = first + 1;
    let b: int = first + (last - first) / 2;
    let c: int = last - 1;
    let r: int = median(q, a, b, c);
    let s: Seq<Pair> = swapped(q, first, r);
    lemma_before_is_rank_order(q[a].0, q[b].0);
    lemma_before_is_rank_order(q[b].0, q[c].0);
    lemma_before_is_rank_order(q[a].0, q[c].0);
    lemma_swapped(q, vals, first, r, first, last);
    assert(a < b < c);
    let t: int = if r != a && rank(q[a].0) <= rank(q[r].0) {
        a
    } else if r != b && rank(q[b].0) <= rank(q[r].0) {
        b
    } else {
        c
    };
    assert(s[t] == q[t]);
    assert(rank(s[t].0) <= rank(s[first].0));
}

/// No pair before place `m` has a smaller value than one from place `m` on.
pub open spec fn split_at(q: Seq<Pair>, m: int) -> bool {
    forall|i: int, j: int| 0 <= i < m <= j < q.len() ==> rank((#[trigger] q[i]).0) >= rank((#[trigger] q[j]).0)
}

proof fn lemma_rearranged_split(p: Seq<Pair>, q: Seq<Pair>, first: int, last: int, m: int)
    requires
        0 <= first <= last <= q.len(),
        rearranged(p, q, first, last),
        split_at(q, m),
        m <= first || last <= m,
    ensures
        split_at(p, m),
{
    assert forall|i: int, j: int| 0 <= i < m <= j < p.len() implies rank((#[trigger] p[i]).0) >= rank(
        (#[trigger] p[j]).0,
    ) by {
        let i0: int = if first <= i < last {
            assert(found_within(p[i], q, first, last));
            choose|t: int| first <= t < last && #[trigger] q[t] == p[i]
        } else {
            i
        };
        let j0: int = if first <= j < last {
            assert(found_within(p[j], q, first, last));
            choose|t: int| first <= t < last && #[trigger] q[t] == p[j]
        } else {
            j
        };
        assert(q[i0] == p[i] && q[j0] == p[j]);
    }
}

proof fn lemma_select_round(q: Seq<Pair>, vals: Seq<u32>, first: int, last: int)
    requires
        0 <= first,
        first + 3 < last <= q.len(),
        is_arrangement(q, vals),
        split_at(q, first),
        split_at(q, last),
    ensures
        ({
            let (p, cut) = select_round(q, first, last);
            &&& is_arrangement(p, vals)
            &&& first < cut < last
            &&& split_at(p, first)
            &&& split_at(p, cut)
            &&& split_at(p, last)
        }),
{
    let r: int = median(q, first + 1, first + (last - first) / 2, last - 1);
    let s: Seq<Pair> = swapped(q, first, r);
    lemma_median_to_front(q, vals, first, last);
    lemma_partitioned(s, vals, first, last, first + 1, last);
    let (p, cut) = select_round(q, first, last);
    lemma_rearranged_transitive(p, s, q, first, last);
    lemma_rearranged_split(p, q, first, last, first);
    lemma_rearranged_split(p, q, first, last, last);
    assert forall|i: int, j: int| 0 <= i < cut <= j < p.len() implies rank((#[trigger] p[i]).0) >= rank(
        (#[trigger] p[j]).0,
    ) by {
        assert(rank(p[first].0) == rank(s[first].0));
        if i >= first && j < last {
        } else if i < first {
            assert(rank(p[i].0) >= rank(p[j].0));
        } else {
            assert(rank(p[i].0) >= rank(p[j].0));
        }
    }
}

proof fn lemma_select_rounds(q: Seq<Pair>, vals: Seq<u32>, first: int, last: int, nth: int, depth: nat)
    requires
        0 <= first <= nth < last <= q.len(),
        is_arrangement(q, vals),
        split_at(q, first),
        split_at(q, last),
    ensures
        select_rounds(q, first, last, nth, depth) matches Some((p, f, l)) ==> {
            &&& is_arrangement(p, vals)
            &&& 0 <= f <= nth < l <= q.len()
            &&& l - f <= 3
            &&& split_at(p, f)
            &&& split_at(p, l)
        },
    decreases depth,
{
    if last - first > 3 && depth > 0 {
        lemma_select_round(q, vals, first, last);
        let (p, cut) = select_round(q, first, last);
        if cut <= nth {
            lemma_select_rounds(p, vals, cut, last, nth, (depth - 1) as nat);
        } else {
            lemma_select_rounds(p, vals, first, cut, nth, (depth - 1) as nat);
        }
    }
}

proof fn lemma_rounds_suffice(q: Seq<Pair>, vals: Seq<u32>, first: int, last: int, nth: int, depth: nat)
    requires
        0 <= first <= nth < last <= q.len(),
        is_arrangement(q, vals),
        split_at(q, first),
        split_at(q, last),
        last - first <= depth + 3,
    ensures
        select_rounds(q, first, last, nth, depth) is Some,
    decreases depth,
{
    if last - first > 3 {
        lemma_select_round(q, vals, first, last);
        let (p, cut) = select_round(q, first, last);
        if cut <= nth {
            lemma_rounds_suffice(p, vals, cut, last, nth, (depth - 1) as nat);
        } else {
            lemma_rounds_suffice(p, vals, first, cut, nth, (depth - 1) as nat);
        }
    }
}

/// A selection among at most eleven values always settles: each round leaves
/// at least one place out.
pub proof fn lemma_short_rows_settle(vals: Seq<u32>, k: int)
    requires
        0 < k <= vals.len() <= 11,
    ensures
        topk_settles(vals, k),
{
    reveal_with_fuel(bit_length, 5);
    assert(vals.len() <= 2 * bit_length(vals.len()) + 3);
    lemma_tagged_is_arrangement(vals);
    lemma_rounds_suffice(tagged(vals), vals, 0, vals.len() as int, k - 1, 2 * bit_length(vals.len()));
}

/// The places `first..i` are in order.
pub open spec fn in_order(q: Seq<Pair>, first: int, i: int) -> bool {
    forall|a: int, b: int| first <= a < b < i ==> rank((#[trigger] q[a]).0) >= rank((#[trigger] q[b]).0)
}

proof fn lemma_sunk(q: Seq<Pair>, vals: Seq<u32>, first: int, j: int, i: int)
    requires
        0 <= first <= j <= i < q.len(),
        is_arrangement(q, vals),
        in_order(q, first, j),
        in_order(q, j, i + 1),
        forall|a: int, b: int| first <= a < j && j < b <= i ==> rank((#[trigger] q[a]).0) >= rank((#[trigger] q[b]).0),
    ensures
        is_arrangement(sunk(q, first, j), vals),
        rearranged(sunk(q, first, j), q, first, i + 1),
        in_order(sunk(q, first, j), first, i + 1),
    decreases j - first,
{
    if first < j {
        lemma_before_is_rank_order(q[j].0, q[j - 1].0);
    }
    if first < j && before(q[j].0, q[j - 1].0) {
        let s: Seq<Pair> = swapped(q, j - 1, j);
        lemma_swapped(q, vals, j - 1, j, first, i + 1);
        assert(s[j - 1] == q[j] && s[j] == q[j - 1]);
        lemma_sunk(s, vals, first, j - 1, i);
        lemma_rearranged_transitive(sunk(q, first, j), s, q, first, i + 1);
    } else {
        lemma_rearranged_reflexive(q, first, i + 1);
        assert forall|a: int, b: int| first <= a < b < i + 1 implies rank((#[trigger] q[a]).0) >= rank(
            (#[trigger] q[b]).0,
        ) by {
            if a < j && b == j {
                assert(rank(q[a].0) >= rank(q[j - 1].0));
            }
        }
    }
}

proof fn lemma_insertion_sorted(q: Seq<Pair>, vals: Seq<u32>, first: int, i: int, last: int)
    requires
        0 <= first < i <= last <= q.len(),
        is_arrangement(q, vals),
        in_order(q, first, i),
        split_at(q, first),
        split_at(q, last),
    ensures
        is_arrangement(insertion_sorted(q, first, i, last), vals),
        in_order(insertion_sorted(q, first, i, last), first, last),
        split_at(insertion_sorted(q, first, i, last), first),
        split_at(insertion_sorted(q, first, i, last), last),
    decreases last - i,
{
    if i < last {
        let s: Seq<Pair> = sunk(q, first, i);
        lemma_sunk(q, vals, first, i, i);
        lemma_rearranged_split(s, q, first, i + 1, first);
        lemma_rearranged_split(s, q, first, i + 1, last);
        lemma_insertion_sorted(s, vals, first, i + 1, last);
    }
}

proof fn lemma_tagged_is_arrangement(vals: Seq<u32>)
    requires
        vals.len() <= usize::MAX,
    ensures
        is_arrangement(tagged(vals), vals),
{
    let q: Seq<Pair> = tagged(vals);
    assert forall|p: int| 0 <= p < vals.len() implies #[trigger] holds_place(q, p) by {
        assert(q[p].1 == p);
    }
}

/// The selection is a top-k selection: it picks `k` different places, and no
/// place that it leaves out holds a value that comes before a picked one.
pub proof fn lemma_topk_picks_are_top(vals: Seq<u32>, k: int)
    requires
        0 < k <= vals.len() <= usize::MAX,
        topk_settles(vals, k),
    ensures
        topk_picks(vals, k).len() == k,
        topk_picks(vals, k).no_duplicates(),
        forall|i: int| 0 <= i < k ==> (#[trigger] topk_picks(vals, k)[i]) < vals.len(),
        forall|i: int, p: int|
            0 <= i < k && 0 <= p < vals.len() && !topk_picks(vals, k).contains(p as usize) ==> !before(
                #[trigger] vals[p],
                vals[(#[trigger] topk_picks(vals, k)[i]) as int],
            ),
{
    lemma_tagged_is_arrangement(vals);
    let n: int = vals.len() as int;
    lemma_select_rounds(tagged(vals), vals, 0, n, k - 1, 2 * bit_length(vals.len()));
    let (q, first, last) = select_rounds(tagged(vals), 0, n, k - 1, 2 * bit_length(vals.len())).unwrap();
    lemma_insertion_sorted(q, vals, first, first + 1, last);
    let s: Seq<Pair> = topk_pairs(vals, k).unwrap();
    let picks: Seq<usize> = topk_picks(vals, k);
    assert forall|i: int| 0 <= i < k implies picks[i] == (#[trigger] s[i]).1 by {}
    assert forall|i: int, j: int| 0 <= i < k <= j < n implies rank((#[trigger] s[i]).0) >= rank((#[trigger] s[j]).0) by {
        if i >= first && j < last {
        } else if i < first {
        } else {
        }
    }
    assert forall|i: int, p: int|
        0 <= i < k && 0 <= p < vals.len() && !picks.contains(p as usize) implies !before(
        #[trigger] vals[p],
        vals[(#[trigger] picks[i]) as int],
    ) by {
        assert(holds_place(s, p));
        let j: int = choose|j: int| 0 <= j < s.len() && (#[trigger] s[j]).1 == p;
        if j < k {
            assert(picks[j] == p as usize);
        }
        assert(s[i].1 == picks[i]);
        lemma_before_is_rank_order(vals[p], vals[picks[i] as int]);
    }
    assert forall|i: int, j: int| 0 <= i < picks.len() && 0 <= j < picks.len() && i != j implies picks[i] != picks[j] by {
        assert(picks[i] == s[i].1 && picks[j] == s[j].1);
    }
}

fn swap_places(q: &mut Vec<Pair>, i: usize, j: usize)
    requires
        i < old(q)@.len(),
        j < old(q)@.len(),
    ensures
        final(q)@ == swapped(old(q)@, i as int, j as int),
{
    let a: Pair = q[i];
    let b: Pair = q[j];
    q.set(i, b);
    q.set(j, a);
}

fn median_of_three(q: &Vec<Pair>, a: usize, b: usize, c: usize) -> (r: usize)
    requires
        a < q@.len(),
        b < q@.len(),
        c < q@.len(),
    ensures
        r == median(q@, a as int, b as int, c as int),
{
    if comes_before(q[a].0, q[b].0) {
        if comes_before(q[b].0, q[c].0) {
            b
        } else if comes_before(q[a].0, q[c].0) {
            c
        } else {
            a
        }
    } else if comes_before(q[a].0, q[c].0) {
        a
    } else if comes_before(q[b].0, q[c].0) {
        c
    } else {
        b
    }
}

fn scan_up(q: &Vec<Pair>, from: usize, pivot: u32) -> (lo: usize)
    requires
        from <= first_not_before(q@, from as int, pivot) < q@.len(),
    ensures
        lo == first_not_before(q@, from as int, pivot),
{
    let n: usize = q.len();
    let mut lo: usize = from;
    while comes_before(q[lo].0, pivot)
        invariant
            n == q@.len(),
            lo <= first_not_before(q@, lo as int, pivot) < q@.len(),
            first_not_before(q@, lo as int, pivot) == first_not_before(q@, from as int, pivot),
        decreases q@.len() - lo,
    {
        proof {
            lemma_scans_move_inwards(q@, lo + 1, 0, pivot);
        }
        lo = lo + 1;
    }
    lo
}

fn scan_down(q: &Vec<Pair>, from: usize, pivot: u32) -> (hi: usize)
    requires
        0 <= last_not_after(q@, from as int, pivot) <= from < q@.len(),
    ensures
        hi == last_not_after(q@, from as int, pivot),
{
    let mut hi: usize = from;
    while comes_before(pivot, q[hi].0)
        invariant
            0 <= last_not_after(q@, hi as int, pivot) <= hi < q@.len(),
            last_not_after(q@, hi as int, pivot) == last_not_after(q@, from as int, pivot),
        decreases hi,
    {
        proof {
            lemma_scan_down_moves(q@, hi - 1, pivot);
        }
        hi = hi - 1;
    }
    hi
}

/// The unguarded partition of `first + 1..last` about the value at `first`;
/// returns the cut.
fn partition(q: &mut Vec<Pair>, first: usize, last: usize) -> (cut: usize)
    requires
        partition_inv(old(q)@, first as int, last as int, first + 1, last as int),
    ensures
        (final(q)@, cut as int) == partitioned(old(q)@, first + 1, last as int, old(q)@[first as int].0),
        final(q)@.len() == old(q)@.len(),
        first < cut < last,
{
    proof {
        reveal(partition_inv);
    }
    let pivot: u32 = q[first].0;
    let mut lo: usize = first + 1;
    let mut hi: usize = last;
    let ghost goal: (Seq<Pair>, int) = partitioned(q@, first + 1, last as int, pivot);
    loop
        invariant_except_break
            partition_inv(q@, first as int, last as int, lo as int, hi as int),
            first < lo <= hi <= last <= q@.len(),
            q@[first as int].0 == pivot,
            q@.len() == old(q)@.len(),
            goal == partitioned(q@, lo as int, hi as int, pivot),
            goal == partitioned(old(q)@, first + 1, last as int, old(q)@[first as int].0),
        ensures
            (q@, lo as int) == goal,
            q@.len() == old(q)@.len(),
            first < lo < last,
        decreases hi - lo,
    {
        let ghost lo0: int = lo as int;
        let ghost hi0: int = hi as int;
        let ghost l: int = first_not_before(q@, lo as int, pivot);
        let ghost h: int = last_not_after(q@, hi - 1, pivot);
        proof {
            lemma_partition_scans(q@, first as int, last as int, lo0, hi0);
        }
        lo = scan_up(q, lo, pivot);
        hi = scan_down(q, hi - 1, pivot);
        if lo >= hi {
            break;
        }
        proof {
            lemma_partition_step(q@, first as int, last as int, lo0, hi0);
        }
        swap_places(q, lo, hi);
        lo = lo + 1;
    }
    lo
}

fn digits_of(n: usize) -> (r: usize)
    ensures
        r == bit_length(n as nat),
        r <= 64,
{
    let mut left: usize = n;
    let mut r: usize = 0;
    proof {
        vstd::arithmetic::power2::lemma2_to64();
        vstd::arithmetic::power2::lemma2_to64_rest();
        lemma_bit_length_bound(n as nat, 64);
    }
    while left > 0
        invariant
            r + bit_length(left as nat) == bit_length(n as nat),
            bit_length(n as nat) <= 64,
        decreases left,
    {
        left = left / 2;
        r = r + 1;
    }
    r
}

proof fn lemma_bit_length_bound(n: nat, e: nat)
    requires
        n < vstd::arithmetic::power2::pow2(e),
    ensures
        bit_length(n) <= e,
    decreases e,
{
    if e == 0 {
        vstd::arithmetic::power2::lemma2_to64();
    } else if n > 0 {
        vstd::arithmetic::power2::lemma_pow2_unfold(e);
        lemma_bit_length_bound(n / 2, (e - 1) as nat);
    }
}

fn sink(q: &mut Vec<Pair>, first: usize, i: usize)
    requires
        first <= i < old(q)@.len(),
    ensures
        final(q)@ == sunk(old(q)@, first as int, i as int),
        final(q)@.len() == old(q)@.len(),
{
    let mut j: usize = i;
    while first < j && comes_before(q[j].0, q[j - 1].0)
        invariant
            first <= j < q@.len(),
            q@.len() == old(q)@.len(),
            sunk(q@, first as int, j as int) == sunk(old(q)@, first as int, i as int),
        decreases j,
    {
        swap_places(q, j - 1, j);
        j = j - 1;
    }
}

/// The picks of the selection, or `None` where it does not settle within its
/// round limit.
pub fn topk_set_if_settled(vals: &[u32], k: usize) -> (r: Option<Vec<usize>>)
    requires
        0 < k <= vals@.len(),
    ensures
        r is Some <==> topk_settles(vals@, k as int),
        r matches Some(v) ==> v@ == topk_picks(vals@, k as int),
{
    let n: usize = vals.len();
    let mut q: Vec<Pair> = Vec::with_capacity(n);
    for i in 0..n
        invariant
            n == vals@.len(),
            q@.len() == i,
            forall|t: int| 0 <= t < i ==> q@[t] == (vals@[t], t as usize),
    {
        q.push((vals[i], i));
    }
    assert(q@ =~= tagged(vals@));
    proof {
        lemma_tagged_is_arrangement(vals@);
    }
    let nth: usize = k - 1;
    let mut first: usize = 0;
    let mut last: usize = n;
    let mut depth: usize = 2 * digits_of(n);
    while last - first > 3
        invariant
            first <= nth < last <= q@.len(),
            nth == k - 1,
            is_arrangement(q@, vals@),
            split_at(q@, first as int),
            split_at(q@, last as int),
            select_rounds(q@, first as int, last as int, nth as int, depth as nat) == select_rounds(
                tagged(vals@),
                0,
                vals@.len() as int,
                k - 1,
                2 * bit_length(vals@.len()),
            ),
        decreases last - first,
    {
        if depth == 0 {
            return None;
        }
        depth = depth - 1;
        proof {
            lemma_median_to_front(q@, vals@, first as int, last as int);
            lemma_select_round(q@, vals@, first as int, last as int);
        }
        let mid: usize = first + (last - first) / 2;
        let r: usize = median_of_three(&q, first + 1, mid, last - 1);
        swap_places(&mut q, first, r);
        let cut: usize = partition(&mut q, first, last);
        if cut <= nth {
            first = cut;
        } else {
            last = cut;
        }
    }
    let ghost settled: Seq<Pair> = q@;
    let mut i: usize = first + 1;
    while i < last
        invariant
            first < i <= last <= q@.len(),
            insertion_sorted(q@, first as int, i as int, last as int) == insertion_sorted(
                settled,
                first as int,
                first + 1,
                last as int,
            ),
        decreases last - i,
    {
        sink(&mut q, first, i);
        i = i + 1;
    }
    let mut picks: Vec<usize> = Vec::with_capacity(k);
    proof {
        lemma_topk_picks_are_top(vals@, k as int);
    }
    for t in 0..k
        invariant
            k <= q@.len(),
            picks@.len() == t,
            forall|j: int| 0 <= j < t ==> picks@[j] == (#[trigger] q@[j]).1,
    {
        picks.push(q[t].1);
    }
    assert(picks@ =~= topk_picks(vals@, k as int));
    Some(picks)
}

/// The index set that a descending top-k of `vals` returns, ties included: the
/// first `k` pairs of the introselect, in the order it leaves them.
///
/// The counts that a partial sort would serve (`k * 64 <= n`) are not taken.
pub fn torch_cpu_topk_set(vals: &[u32], k: usize) -> (r: Vec<usize>)
    requires
        topk_in_range(vals@.len() as int, k as int),
        topk_settles(vals@, k as int),
    ensures
        r@ == topk_picks(vals@, k as int),
        r@.len() == k,
        r@.no_duplicates(),
        forall|i: int| 0 <= i < k ==> (#[trigger] r@[i]) < vals@.len(),
        forall|i: int, p: int|
            0 <= i < k && 0 <= p < vals@.len() && !r@.contains(p as usize) ==> !before(
                #[trigger] vals@[p],
                vals@[(#[trigger] r@[i]) as int],
            ),
{
    proof {
        lemma_topk_picks_are_top(vals@, k as int);
    }
    topk_set_if_settled(vals, k).unwrap()
}

} // verus!
