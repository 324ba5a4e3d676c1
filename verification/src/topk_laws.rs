//! Laws of the selection's steps: how each of them treats equal values, which
//! is what the picks among equals rest on.

use crate::float_bits::{before, lemma_before_is_rank_order, rank};
use crate::topk::{
    bit_length, first_not_before, last_not_after, median, partitioned, select_round, select_rounds, sunk, swapped, tagged,
    topk_settles, Pair,
};
use vstd::arithmetic::power2::{lemma2_to64, lemma_pow2_pos, lemma_pow2_unfold, pow2};
use vstd::prelude::*;

verus! {

/// The median of three is the middle one of three different values. Among equal
/// values the place is fixed too: of three equals the second, of two equals the
/// first where the other value comes behind them, and the second where it comes
/// in front.
pub proof fn lemma_median_of_three(q: Seq<Pair>, a: int, b: int, c: int)
    ensures
        ({
            let m: int = median(q, a, b, c);
            let x: int = rank(q[a].0);
            let y: int = rank(q[b].0);
            let z: int = rank(q[c].0);
            &&& m == a || m == b || m == c
            &&& x > y > z || z > y > x ==> m == b
            &&& y > x > z || z > x > y ==> m == a
            &&& x > z > y || y > z > x ==> m == c
            &&& x == y == z ==> m == b
            &&& x == y && z > x ==> m == b
            &&& x == y && z < x ==> m == a
            &&& x == z && y > x ==> m == c
            &&& x == z && y < x ==> m == a
            &&& y == z && x > y ==> m == c
            &&& y == z && x < y ==> m == b
        }),
{
    lemma_before_is_rank_order(q[a].0, q[b].0);
    lemma_before_is_rank_order(q[b].0, q[c].0);
    lemma_before_is_rank_order(q[a].0, q[c].0);
}

/// The scan up stops at the first place whose value does not come before the
/// pivot: it passes what comes before, and stops at an equal.
pub proof fn lemma_scan_up(q: Seq<Pair>, lo: int, pivot: u32)
    requires
        0 <= lo <= q.len(),
    ensures
        ({
            let l: int = first_not_before(q, lo, pivot);
            &&& lo <= l <= q.len()
            &&& forall|i: int| lo <= i < l ==> rank((#[trigger] q[i]).0) > rank(pivot)
            &&& l < q.len() ==> rank(q[l].0) <= rank(pivot)
        }),
    decreases q.len() - lo,
{
    if lo < q.len() {
        lemma_before_is_rank_order(q[lo].0, pivot);
        if before(q[lo].0, pivot) {
            lemma_scan_up(q, lo + 1, pivot);
        }
    }
}

/// The scan down stops at the last place whose value does not come behind the
/// pivot: it passes what comes behind, and stops at an equal.
pub proof fn lemma_scan_down(q: Seq<Pair>, hi: int, pivot: u32)
    requires
        -1 <= hi < q.len(),
    ensures
        ({
            let h: int = last_not_after(q, hi, pivot);
            &&& -1 <= h <= hi
            &&& forall|i: int| h < i <= hi ==> rank((#[trigger] q[i]).0) < rank(pivot)
            &&& h >= 0 ==> rank(q[h].0) >= rank(pivot)
        }),
    decreases hi + 1,
{
    if hi >= 0 {
        lemma_before_is_rank_order(pivot, q[hi].0);
        if before(pivot, q[hi].0) {
            lemma_scan_down(q, hi - 1, pivot);
        }
    }
}

proof fn lemma_partition_spares_the_front(q: Seq<Pair>, lo: int, hi: int, pivot: u32, p: int)
    requires
        0 <= p < lo,
        hi <= q.len(),
    ensures
        partitioned(q, lo, hi, pivot).0.len() == q.len(),
        partitioned(q, lo, hi, pivot).0[p] == q[p],
    decreases hi - lo,
{
    let l: int = first_not_before(q, lo, pivot);
    let h: int = last_not_after(q, hi - 1, pivot);
    crate::topk::lemma_scans_move_inwards(q, lo, hi - 1, pivot);
    if l < h {
        lemma_partition_spares_the_front(swapped(q, l, h), l + 1, h, pivot, p);
    }
}

/// A round partitions about the median of the second, the middle and the last
/// place: that pair is the first behind it.
pub proof fn lemma_round_takes_the_median(q: Seq<Pair>, first: int, last: int)
    requires
        0 <= first,
        first + 3 < last <= q.len(),
    ensures
        select_round(q, first, last).0.len() == q.len(),
        select_round(q, first, last).0[first] == q[median(q, first + 1, first + (last - first) / 2, last - 1)],
{
    let r: int = median(q, first + 1, first + (last - first) / 2, last - 1);
    let s: Seq<Pair> = swapped(q, first, r);
    lemma_median_of_three(q, first + 1, first + (last - first) / 2, last - 1);
    assert(first < r < last);
    lemma_partition_spares_the_front(s, first + 1, last, s[first].0, first);
}

/// An insertion moves a pair in front of exactly those before it that it comes
/// strictly before, and leaves the order of the others: equal pairs keep theirs.
pub proof fn lemma_insertion_is_stable(q: Seq<Pair>, first: int, j: int) -> (i: int)
    requires
        0 <= first <= j < q.len(),
    ensures
        ({
            let s: Seq<Pair> = sunk(q, first, j);
            &&& first <= i <= j
            &&& s.len() == q.len()
            &&& s[i] == q[j]
            &&& forall|k: int| i <= k < j ==> rank((#[trigger] q[k]).0) < rank(q[j].0) && s[k + 1] == q[k]
            &&& i > first ==> rank(q[i - 1].0) >= rank(q[j].0)
            &&& forall|k: int| 0 <= k < q.len() && (k < i || j < k) ==> #[trigger] s[k] == q[k]
        }),
    decreases j - first,
{
    if first < j {
        lemma_before_is_rank_order(q[j].0, q[j - 1].0);
    }
    if first < j && before(q[j].0, q[j - 1].0) {
        let t: Seq<Pair> = swapped(q, j - 1, j);
        let i: int = lemma_insertion_is_stable(t, first, j - 1);
        let s: Seq<Pair> = sunk(q, first, j);
        assert(s == sunk(t, first, j - 1));
        assert(t[j - 1] == q[j]);
        assert forall|k: int| i <= k < j implies rank((#[trigger] q[k]).0) < rank(q[j].0) && s[k + 1] == q[k] by {
            if k < j - 1 {
                assert(t[k] == q[k]);
            } else {
                assert(s[j] == t[j]);
            }
        }
        assert forall|k: int| 0 <= k < q.len() && (k < i || j < k) implies #[trigger] s[k] == q[k] by {
            assert(t[k] == q[k]);
        }
        if i > first {
            assert(t[i - 1] == q[i - 1]);
        }
        i
    } else {
        j
    }
}

/// The binary digits of a number: as many as take it to a power of two above
/// it, and no more.
pub proof fn lemma_bit_length(n: nat)
    requires
        n > 0,
    ensures
        bit_length(n) > 0,
        pow2((bit_length(n) - 1) as nat) <= n < pow2(bit_length(n)),
    decreases n,
{
    lemma2_to64();
    reveal_with_fuel(bit_length, 2);
    if n > 1 {
        lemma_bit_length(n / 2);
        lemma_pow2_unfold(bit_length(n));
        lemma_pow2_unfold((bit_length(n) - 1) as nat);
    }
}

/// A partition exchanges the pairs that the two scans stop at and goes on
/// between them, until the scans meet; where the first has stopped is the cut.
pub proof fn lemma_partition_goes_on(q: Seq<Pair>, lo: int, hi: int, pivot: u32)
    ensures
        ({
            let l: int = first_not_before(q, lo, pivot);
            let h: int = last_not_after(q, hi - 1, pivot);
            &&& l >= h ==> partitioned(q, lo, hi, pivot) == (q, l)
            &&& l < h ==> partitioned(q, lo, hi, pivot) == partitioned(
                q.update(l, q[h]).update(h, q[l]),
                l + 1,
                h,
                pivot,
            )
        }),
{
    crate::topk::lemma_scans_move_inwards(q, lo, hi - 1, pivot);
}

/// Rounds run while more than three places are left, as long as there are any
/// rounds to go.
pub proof fn lemma_rounds_leave_three(q: Seq<Pair>, first: int, last: int, nth: int, depth: nat)
    ensures
        last - first <= 3 ==> select_rounds(q, first, last, nth, depth) == Some((q, first, last)),
        last - first > 3 && depth == 0 ==> select_rounds(q, first, last, nth, depth) is None,
        select_rounds(q, first, last, nth, depth) matches Some(r) ==> r.2 - r.1 <= 3,
    decreases depth,
{
    if last - first > 3 && depth > 0 {
        let (p, cut) = select_round(q, first, last);
        lemma_rounds_leave_three(p, cut, last, nth, (depth - 1) as nat);
        lemma_rounds_leave_three(p, first, cut, nth, (depth - 1) as nat);
    }
}

/// A selection among at least `2^(b - 1)` but fewer than `2^b` values settles
/// where `2 * b` rounds suffice.
pub proof fn lemma_round_limit(vals: Seq<u32>, k: int, b: nat)
    requires
        0 < b,
        pow2((b - 1) as nat) <= vals.len() < pow2(b),
    ensures
        topk_settles(vals, k) <==> select_rounds(
            Seq::new(vals.len(), |i: int| (vals[i], i as usize)),
            0,
            vals.len() as int,
            k - 1,
            2 * b,
        ) is Some,
{
    lemma_pow2_pos((b - 1) as nat);
    lemma_bit_length(vals.len());
    let n: nat = bit_length(vals.len());
    if n < b {
        lemma_pow2_up(n, (b - 1) as nat);
    } else if b < n {
        lemma_pow2_up(b, (n - 1) as nat);
    }
    assert(Seq::new(vals.len(), |i: int| (vals[i], i as usize)) =~= tagged(vals));
}

proof fn lemma_pow2_up(a: nat, b: nat)
    requires
        a <= b,
    ensures
        pow2(a) <= pow2(b),
    decreases b - a,
{
    if a < b {
        lemma_pow2_up(a, (b - 1) as nat);
        lemma_pow2_unfold(b);
    }
}

} // verus!
