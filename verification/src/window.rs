//! The sliding window of a layer's own latent rows, kept as a ring: position
//! `p` lives in slot `p % win`.

use crate::rows::{append, concat_rows, lemma_concat_rows_row, lemma_row_bounds, row};
use vstd::arithmetic::div_mod::{lemma_fundamental_div_mod, lemma_fundamental_div_mod_converse};
use vstd::prelude::*;
use vstd::slice::slice_subrange;

verus! {

/// The newest position before `end` that lives in slot `s`; -1 if there is none.
pub open spec fn newest_in_slot(s: int, end: int, win: int) -> int {
    if s < end {
        s + ((end - 1 - s) / win) * win
    } else {
        -1
    }
}

/// Slot `s` of the ring after the rows `kv` of the positions from `start_pos`
/// on were written.
pub open spec fn slot_after<T>(window: Seq<T>, kv: Seq<T>, seqlen: int, start_pos: int, win: int, hd: int, s: int) -> Seq<T> {
    let p: int = newest_in_slot(s, start_pos + seqlen, win);
    if p >= start_pos {
        row(kv, p - start_pos, hd)
    } else {
        row(window, s, hd)
    }
}

/// The ring after those rows were written.
pub open spec fn window_after<T>(window: Seq<T>, kv: Seq<T>, seqlen: int, start_pos: int, win: int, hd: int) -> Seq<T> {
    concat_rows(win as nat, |s: int| slot_after(window, kv, seqlen, start_pos, win, hd, s))
}

/// The rows, window and counts that a write takes: a whole prefill, or one
/// decoded position.
pub open spec fn window_write_in_range<T>(
    window: Seq<T>,
    kv: Seq<T>,
    seqlen: int,
    start_pos: int,
    win: int,
    hd: int,
) -> bool {
    &&& 0 < win
    &&& window.len() == win * hd
    &&& kv.len() == seqlen * hd
    &&& start_pos + seqlen <= usize::MAX
    &&& start_pos == 0 || seqlen == 1
}

/// [`newest_in_slot`] is the newest position of a slot: it lives there, and no
/// later one before `end` does.
pub proof fn lemma_newest_in_slot(s: int, end: int, win: int)
    requires
        0 <= s < win,
        0 <= end,
    ensures
        newest_in_slot(s, end, win) < end,
        s < end ==> newest_in_slot(s, end, win) >= s && newest_in_slot(s, end, win) % win == s && newest_in_slot(
            s,
            end,
            win,
        ) >= end - win,
        forall|p: int| 0 <= p < end && #[trigger] (p % win) == s ==> p <= newest_in_slot(s, end, win),
{
    let p: int = newest_in_slot(s, end, win);
    if s < end {
        let d: int = (end - 1 - s) / win;
        lemma_fundamental_div_mod(end - 1 - s, win);
        assert(win * d == d * win) by (nonlinear_arith);
        assert(0 <= d) by (nonlinear_arith)
            requires
                d == (end - 1 - s) / win,
                0 <= end - 1 - s,
                0 < win,
        ;
        assert(0 <= d * win) by (nonlinear_arith)
            requires
                0 <= d,
                0 < win,
        ;
        lemma_fundamental_div_mod_converse(p, win, d, s);
    }
    assert forall|x: int| 0 <= x < end && #[trigger] (x % win) == s implies x <= p by {
        lemma_fundamental_div_mod(x, win);
        let k: int = x / win;
        assert(0 <= win * k) by (nonlinear_arith)
            requires
                k == x / win,
                0 <= x,
                0 < win,
        ;
        assert(x == win * k + s);
        assert(s < end);
        let d: int = (end - 1 - s) / win;
        lemma_fundamental_div_mod(end - 1 - s, win);
        if k > d {
            assert(win * k >= win * d + win) by (nonlinear_arith)
                requires
                    k >= d + 1,
                    0 < win,
            ;
        }
        assert(win * k <= win * d) by (nonlinear_arith)
            requires
                k <= d,
                0 < win,
        ;
        assert(win * d == d * win) by (nonlinear_arith);
    }
}

/// Position `p` is the newest of its slot as long as it is within the last
/// `win` positions.
pub proof fn lemma_recent_is_newest(p: int, end: int, win: int)
    requires
        0 < win,
        0 <= p < end,
        end - win <= p,
    ensures
        newest_in_slot(p % win, end, win) == p,
{
    let s: int = p % win;
    lemma_fundamental_div_mod(p, win);
    assert(s <= p) by (nonlinear_arith)
        requires
            s == p % win,
            0 <= p,
            0 < win,
    ;
    lemma_newest_in_slot(s, end, win);
    let q: int = newest_in_slot(s, end, win);
    assert(p % win == s);
    lemma_fundamental_div_mod(q, win);
    let a: int = p / win;
    let b: int = q / win;
    assert(q - p == win * b - win * a);
    assert(0 <= q - p < win);
    assert(b == a) by (nonlinear_arith)
        requires
            0 <= win * b - win * a < win,
            0 < win,
    ;
}

/// The ring holds the newest row of every slot that any of the `rows` seen so
/// far went to.
pub open spec fn ring_holds<T>(window: Seq<T>, rows: Seq<Seq<T>>, win: int, hd: int) -> bool {
    &&& window.len() == win * hd
    &&& forall|s: int|
        0 <= s < win && newest_in_slot(s, rows.len() as int, win) >= 0 ==> #[trigger] row(window, s, hd)
            == rows[newest_in_slot(s, rows.len() as int, win)]
}

/// The rows of a table, one by one.
pub open spec fn table_rows<T>(kv: Seq<T>, seqlen: int, hd: int) -> Seq<Seq<T>> {
    Seq::new(seqlen as nat, |t: int| row(kv, t, hd))
}

proof fn lemma_window_after_row<T>(
    window: Seq<T>,
    kv: Seq<T>,
    seqlen: int,
    start_pos: int,
    win: int,
    hd: int,
    s: int,
)
    requires
        window_write_in_range(window, kv, seqlen, start_pos, win, hd),
        0 <= seqlen,
        0 <= start_pos,
        0 <= hd,
        0 <= s < win,
    ensures
        window_after(window, kv, seqlen, start_pos, win, hd).len() == win * hd,
        row(window_after(window, kv, seqlen, start_pos, win, hd), s, hd) == slot_after(
            window,
            kv,
            seqlen,
            start_pos,
            win,
            hd,
            s,
        ),
{
    let f = |t: int| slot_after(window, kv, seqlen, start_pos, win, hd, t);
    assert forall|t: int| 0 <= t < win implies (#[trigger] f(t)).len() == hd by {
        lemma_newest_in_slot(t, start_pos + seqlen, win);
        let p: int = newest_in_slot(t, start_pos + seqlen, win);
        if p >= start_pos {
            lemma_row_bounds(p - start_pos, seqlen, hd);
        } else {
            lemma_row_bounds(t, win, hd);
        }
    }
    lemma_concat_rows_row(win as nat, hd, f, s);
}

/// A prefill fills the ring: whatever it held before, it then holds the newest
/// row of each slot.
pub proof fn lemma_prefill_fills_ring<T>(window: Seq<T>, kv: Seq<T>, seqlen: int, win: int, hd: int)
    requires
        window_write_in_range(window, kv, seqlen, 0, win, hd),
        0 <= seqlen,
        0 <= hd,
    ensures
        ring_holds(window_after(window, kv, seqlen, 0, win, hd), table_rows(kv, seqlen, hd), win, hd),
{
    let after: Seq<T> = window_after(window, kv, seqlen, 0, win, hd);
    let rows: Seq<Seq<T>> = table_rows(kv, seqlen, hd);
    lemma_window_after_row(window, kv, seqlen, 0, win, hd, 0);
    assert forall|s: int| 0 <= s < win && newest_in_slot(s, rows.len() as int, win) >= 0 implies #[trigger] row(
        after,
        s,
        hd,
    ) == rows[newest_in_slot(s, rows.len() as int, win)] by {
        lemma_window_after_row(window, kv, seqlen, 0, win, hd, s);
        lemma_newest_in_slot(s, seqlen, win);
    }
}

/// A decoded row takes the place of the oldest and the ring still holds the
/// newest row of each slot.
pub proof fn lemma_decode_keeps_ring<T>(window: Seq<T>, kv: Seq<T>, rows: Seq<Seq<T>>, win: int, hd: int)
    requires
        rows.len() > 0,
        window_write_in_range(window, kv, 1, rows.len() as int, win, hd),
        0 <= hd,
        ring_holds(window, rows, win, hd),
    ensures
        ring_holds(window_after(window, kv, 1, rows.len() as int, win, hd), rows.push(kv), win, hd),
{
    let end: int = rows.len() as int;
    let after: Seq<T> = window_after(window, kv, 1, end, win, hd);
    let more: Seq<Seq<T>> = rows.push(kv);
    lemma_window_after_row(window, kv, 1, end, win, hd, 0);
    assert(row(kv, 0, hd) =~= kv);
    assert forall|s: int| 0 <= s < win && newest_in_slot(s, more.len() as int, win) >= 0 implies #[trigger] row(
        after,
        s,
        hd,
    ) == more[newest_in_slot(s, more.len() as int, win)] by {
        lemma_window_after_row(window, kv, 1, end, win, hd, s);
        lemma_newest_in_slot(s, end + 1, win);
        lemma_newest_in_slot(s, end, win);
        let p: int = newest_in_slot(s, end + 1, win);
        if p < end {
            assert(p % win == s);
            if s < end {
                let q: int = newest_in_slot(s, end, win);
                assert(q % win == s);
            }
            assert(p == newest_in_slot(s, end, win));
            assert(row(window, s, hd) == rows[p]);
        }
    }
}

/// A ring gives back each of the last `win` rows from the slot of its position.
pub proof fn lemma_ring_read<T>(window: Seq<T>, rows: Seq<Seq<T>>, win: int, hd: int, p: int)
    requires
        0 < win,
        ring_holds(window, rows, win, hd),
        0 <= p < rows.len(),
        rows.len() - win <= p,
    ensures
        row(window, p % win, hd) == rows[p],
{
    lemma_recent_is_newest(p, rows.len() as int, win);
    assert(0 <= p % win < win) by (nonlinear_arith)
        requires
            0 < win,
    ;
}

/// Writes the rows `kv` of the positions from `start_pos` on into the ring.
pub fn write_window(window: &mut Vec<u32>, kv: &[u32], seqlen: usize, start_pos: usize, win: usize, hd: usize)
    requires
        window_write_in_range(old(window)@, kv@, seqlen as int, start_pos as int, win as int, hd as int),
    ensures
        final(window)@ == window_after(old(window)@, kv@, seqlen as int, start_pos as int, win as int, hd as int),
        final(window)@.len() == win * hd,
{
    let end: usize = start_pos + seqlen;
    let kv_len: usize = kv.len();
    let total: usize = window.len();
    let mut after: Vec<u32> = Vec::with_capacity(total);
    let ghost f = |s: int| slot_after(window@, kv@, seqlen as int, start_pos as int, win as int, hd as int, s);
    for s in 0..win
        invariant
            window_write_in_range(window@, kv@, seqlen as int, start_pos as int, win as int, hd as int),
            end == start_pos + seqlen,
            kv_len == kv@.len(),
            total == window@.len(),
            window@ == old(window)@,
            f == |s: int| slot_after(window@, kv@, seqlen as int, start_pos as int, win as int, hd as int, s),
            after@ == concat_rows(s as nat, f),
    {
        proof {
            lemma_newest_in_slot(s as int, end as int, win as int);
            lemma_row_bounds(s as int, win as int, hd as int);
        }
        let written: bool = if s < end {
            let d: usize = (end - 1 - s) / win;
            proof {
                assert(0 <= d * win) by (nonlinear_arith)
                    requires
                        0 <= d,
                        0 < win,
                ;
            }
            let p: usize = s + d * win;
            assert(p == newest_in_slot(s as int, end as int, win as int));
            if p >= start_pos {
                let t: usize = p - start_pos;
                proof {
                    lemma_row_bounds(t as int, seqlen as int, hd as int);
                }
                append(&mut after, slice_subrange(kv, t * hd, (t + 1) * hd));
                true
            } else {
                false
            }
        } else {
            false
        };
        if !written {
            append(&mut after, slice_subrange(window.as_slice(), s * hd, (s + 1) * hd));
        }
    }
    proof {
        lemma_window_after_row(window@, kv@, seqlen as int, start_pos as int, win as int, hd as int, 0);
    }
    *window = after;
}

} // verus!
