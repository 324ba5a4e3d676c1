//! Compressed attention on the host: the compressor's partial group, the
//! per-layer caches, and what the source layers hand down the stack.
//!
//! Rows are bit patterns of floats. The numeric stages between the steps here
//! (projections, pooling, norms, rotations, quantisers, attention itself) are
//! the caller's; these functions decide which rows go where, which positions
//! exist and which of them are attended.

use crate::float_bits::NEG_INFINITY;
use crate::index_select::{index_selection_if_settled, IndexRequest, IndexSelection};
use crate::rows::{append, concat_rows, copied, filled, lemma_row_bounds, lemma_same_rows, overwrite, row, spliced};
use crate::window::{table_rows, window_after, window_write_in_range, write_window};
use vstd::arithmetic::div_mod::lemma_fundamental_div_mod_converse;
use vstd::prelude::*;
use vstd::slice::slice_subrange;

verus! {

/// Block size of the fp4 quantiser of the index queries and keys.
pub const FP4_BLOCK: usize = 32;

/// Block size that the compressed latent is quantised with.
pub const LATENT_BLOCK: usize = 16;

/// The rows of the group that is still filling up.
pub struct CompressorState {
    /// `[ratio][hd]`
    pub kv_state: Vec<u32>,
    /// `[ratio][hd]`
    pub score_state: Vec<u32>,
}

impl CompressorState {
    /// The state holds `ratio` rows of `hd` values twice.
    pub open spec fn wf(&self, ratio: int, hd: int) -> bool {
        &&& self.kv_state@.len() == ratio * hd
        &&& self.score_state@.len() == ratio * hd
    }

    /// An empty group: zero rows, with scores at negative infinity.
    pub fn new(ratio: usize, hd: usize) -> (r: Self)
        requires
            ratio * hd <= usize::MAX,
        ensures
            r.wf(ratio as int, hd as int),
            r.kv_state@ == Seq::new((ratio * hd) as nat, |i: int| 0u32),
            r.score_state@ == Seq::new((ratio * hd) as nat, |i: int| NEG_INFINITY),
    {
        CompressorState { kv_state: filled(0u32, ratio * hd), score_state: filled(NEG_INFINITY, ratio * hd) }
    }
}

/// The rows of the groups that a call completes, to be pooled.
pub struct PoolInput {
    /// `[groups][ratio][hd]`
    pub kv: Vec<u32>,
    /// `[groups][ratio][hd]`; empty at ratio 1, where nothing is pooled
    pub score: Vec<u32>,
    pub groups: usize,
}

/// How many of a prefill's rows belong to complete groups.
pub open spec fn complete_rows(seqlen: int, ratio: int) -> int {
    seqlen - seqlen % ratio
}

/// A call leaves at least one group complete: any call at ratio 1, a prefill of
/// a group or more, the decode of a group's last position.
pub open spec fn completes_group(seqlen: int, start_pos: int, ratio: int) -> bool {
    if ratio == 1 {
        true
    } else if start_pos == 0 {
        seqlen >= ratio
    } else {
        (start_pos + 1) % ratio == 0
    }
}

/// How many groups a call completes, where it completes any.
pub open spec fn completed_groups(seqlen: int, start_pos: int, ratio: int) -> int {
    if ratio == 1 {
        seqlen
    } else if start_pos == 0 {
        complete_rows(seqlen, ratio) / ratio
    } else {
        1
    }
}

/// The partial group after a call: a prefill leaves its incomplete rows in
/// front, a decode puts its row in the slot of its position.
pub open spec fn state_after<T>(
    state: Seq<T>,
    rows: Seq<T>,
    seqlen: int,
    start_pos: int,
    ratio: int,
    hd: int,
) -> Seq<T> {
    if ratio == 1 {
        state
    } else if start_pos == 0 {
        spliced(state, 0, rows.skip(complete_rows(seqlen, ratio) * hd))
    } else {
        spliced(state, (start_pos % ratio) * hd, rows)
    }
}

/// The rows of the groups that a call completes.
pub open spec fn rows_to_pool<T>(
    state: Seq<T>,
    rows: Seq<T>,
    seqlen: int,
    start_pos: int,
    ratio: int,
    hd: int,
) -> Seq<T> {
    if ratio == 1 {
        rows
    } else if start_pos == 0 {
        rows.take(complete_rows(seqlen, ratio) * hd)
    } else {
        state_after(state, rows, seqlen, start_pos, ratio, hd)
    }
}

/// The rows, state and counts that the compressor takes: a whole prefill, or
/// one decoded position; above ratio 1 the score rows too, and rows that are
/// not empty where a group is complete.
pub open spec fn compressor_in_range(
    kv: Seq<u32>,
    score: Seq<u32>,
    seqlen: int,
    start_pos: int,
    ratio: int,
    hd: int,
    st: CompressorState,
) -> bool {
    &&& 0 < ratio
    &&& kv.len() == seqlen * hd
    &&& ratio > 1 ==> {
        &&& completes_group(seqlen, start_pos, ratio) ==> 0 < hd
        &&& score.len() == seqlen * hd
        &&& st.wf(ratio, hd)
        &&& start_pos == 0 || seqlen == 1
        &&& start_pos < usize::MAX
    }
}

proof fn lemma_complete_rows(seqlen: int, ratio: int, hd: int)
    requires
        0 <= seqlen,
        0 < ratio,
        0 <= hd,
    ensures
        0 <= complete_rows(seqlen, ratio) <= seqlen,
        0 <= seqlen % ratio < ratio,
        complete_rows(seqlen, ratio) == (complete_rows(seqlen, ratio) / ratio) * ratio,
        complete_rows(seqlen, ratio) / ratio == seqlen / ratio,
        0 <= complete_rows(seqlen, ratio) * hd <= seqlen * hd,
        seqlen * hd - complete_rows(seqlen, ratio) * hd == (seqlen % ratio) * hd,
        (seqlen % ratio) * hd <= ratio * hd,
        seqlen >= ratio ==> complete_rows(seqlen, ratio) / ratio >= 1,
{
    let c: int = complete_rows(seqlen, ratio);
    let rem: int = seqlen % ratio;
    let d: int = seqlen / ratio;
    vstd::arithmetic::div_mod::lemma_fundamental_div_mod(seqlen, ratio);
    assert(0 <= rem < ratio) by (nonlinear_arith)
        requires
            rem == seqlen % ratio,
            0 < ratio,
    ;
    assert(c == ratio * d);
    assert(ratio * d == d * ratio + 0) by (nonlinear_arith);
    lemma_fundamental_div_mod_converse(c, ratio, d, 0);
    assert(0 <= d) by (nonlinear_arith)
        requires
            d == seqlen / ratio,
            0 <= seqlen,
            0 < ratio,
    ;
    assert(0 <= c) by (nonlinear_arith)
        requires
            c == ratio * d,
            0 <= d,
            0 < ratio,
    ;
    assert(seqlen * hd - c * hd == rem * hd) by (nonlinear_arith)
        requires
            c == seqlen - rem,
    ;
    assert(0 <= c * hd && 0 <= rem * hd && rem * hd <= ratio * hd) by (nonlinear_arith)
        requires
            0 <= c,
            0 <= rem < ratio,
            0 <= hd,
    ;
    if seqlen >= ratio {
        assert(d >= 1) by (nonlinear_arith)
            requires
                d == seqlen / ratio,
                seqlen >= ratio,
                0 < ratio,
        ;
    }
}

/// The compressor's grouping. `kv` and `score` are the projected rows
/// `[seqlen][hd]` of this call; the result is what is to be pooled, `None`
/// while a group is still filling up.
pub fn compressor(
    kv: &[u32],
    score: &[u32],
    seqlen: usize,
    start_pos: usize,
    ratio: usize,
    hd: usize,
    st: &mut CompressorState,
) -> (r: Option<PoolInput>)
    requires
        compressor_in_range(kv@, score@, seqlen as int, start_pos as int, ratio as int, hd as int, *old(st)),
    ensures
        final(st).kv_state@ == state_after(
            old(st).kv_state@,
            kv@,
            seqlen as int,
            start_pos as int,
            ratio as int,
            hd as int,
        ),
        final(st).score_state@ == if ratio == 1 {
            old(st).score_state@
        } else {
            state_after(old(st).score_state@, score@, seqlen as int, start_pos as int, ratio as int, hd as int)
        },
        r is Some <==> completes_group(seqlen as int, start_pos as int, ratio as int),
        r matches Some(p) ==> {
            &&& p.groups == completed_groups(seqlen as int, start_pos as int, ratio as int)
            &&& p.kv@ == rows_to_pool(
                old(st).kv_state@,
                kv@,
                seqlen as int,
                start_pos as int,
                ratio as int,
                hd as int,
            )
            &&& p.score@ == if ratio == 1 {
                Seq::<u32>::empty()
            } else {
                rows_to_pool(
                    old(st).score_state@,
                    score@,
                    seqlen as int,
                    start_pos as int,
                    ratio as int,
                    hd as int,
                )
            }
        },
{
    if ratio == 1 {
        return Some(PoolInput { kv: copied(kv), score: Vec::new(), groups: seqlen });
    }
    if start_pos == 0 {
        proof {
            lemma_complete_rows(seqlen as int, ratio as int, hd as int);
        }
        let remainder: usize = seqlen % ratio;
        let cutoff: usize = seqlen - remainder;
        let total: usize = kv.len();
        let from: usize = cutoff * hd;
        let kv_tail: &[u32] = slice_subrange(kv, from, total);
        let score_tail: &[u32] = slice_subrange(score, from, total);
        assert(kv_tail@ =~= kv@.skip(from as int));
        assert(score_tail@ =~= score@.skip(from as int));
        overwrite(&mut st.kv_state, 0, kv_tail);
        overwrite(&mut st.score_state, 0, score_tail);
        if seqlen < ratio {
            return None;
        }
        let kv_head: &[u32] = slice_subrange(kv, 0, from);
        let score_head: &[u32] = slice_subrange(score, 0, from);
        assert(kv_head@ =~= kv@.take(from as int));
        assert(score_head@ =~= score@.take(from as int));
        Some(PoolInput { kv: copied(kv_head), score: copied(score_head), groups: cutoff / ratio })
    } else {
        let slot: usize = start_pos % ratio;
        let held: usize = st.kv_state.len();
        proof {
            lemma_row_bounds(slot as int, ratio as int, hd as int);
        }
        overwrite(&mut st.kv_state, slot * hd, kv);
        overwrite(&mut st.score_state, slot * hd, score);
        if (start_pos + 1) % ratio != 0 {
            return None;
        }
        Some(
            PoolInput {
                kv: copied(st.kv_state.as_slice()),
                score: copied(st.score_state.as_slice()),
                groups: 1,
            },
        )
    }
}

/// The partial group holds the rows since the last complete group, each in the
/// slot of its position.
pub open spec fn state_tracks<T>(state: Seq<T>, rows: Seq<Seq<T>>, ratio: int, hd: int) -> bool {
    &&& state.len() == ratio * hd
    &&& forall|p: int|
        complete_rows(rows.len() as int, ratio) <= p < rows.len() ==> #[trigger] rows[p] == row(state, p % ratio, hd)
}

proof fn lemma_spliced_row<T>(state: Seq<T>, at: int, s: Seq<T>, n: int, hd: int, r: int)
    requires
        state.len() == n * hd,
        0 <= r < n,
        0 <= hd,
        0 <= at,
        at + s.len() <= state.len(),
    ensures
        r * hd >= at + s.len() || (r + 1) * hd <= at ==> row(spliced(state, at, s), r, hd) == row(state, r, hd),
        at <= r * hd && (r + 1) * hd <= at + s.len() ==> row(spliced(state, at, s), r, hd) == s.subrange(
            r * hd - at,
            (r + 1) * hd - at,
        ),
{
    lemma_row_bounds(r, n, hd);
    if r * hd >= at + s.len() || (r + 1) * hd <= at {
        assert(row(spliced(state, at, s), r, hd) =~= row(state, r, hd));
    }
    if at <= r * hd && (r + 1) * hd <= at + s.len() {
        assert(row(spliced(state, at, s), r, hd) =~= s.subrange(r * hd - at, (r + 1) * hd - at));
    }
}

/// A prefill leaves the partial group tracking its rows.
pub proof fn lemma_prefill_tracks<T>(state: Seq<T>, kv: Seq<T>, seqlen: int, ratio: int, hd: int)
    requires
        1 < ratio,
        0 <= hd,
        0 <= seqlen,
        state.len() == ratio * hd,
        kv.len() == seqlen * hd,
    ensures
        state_tracks(state_after(state, kv, seqlen, 0, ratio, hd), table_rows(kv, seqlen, hd), ratio, hd),
{
    lemma_complete_rows(seqlen, ratio, hd);
    let c: int = complete_rows(seqlen, ratio);
    let rows: Seq<Seq<T>> = table_rows(kv, seqlen, hd);
    let tail: Seq<T> = kv.skip(c * hd);
    let after: Seq<T> = state_after(state, kv, seqlen, 0, ratio, hd);
    assert forall|p: int| c <= p < rows.len() implies #[trigger] rows[p] == row(after, p % ratio, hd) by {
        let g: int = c / ratio;
        lemma_fundamental_div_mod_converse(p, ratio, g, p - c);
        let r: int = p - c;
        lemma_row_bounds(p, seqlen, hd);
        lemma_row_bounds(r, ratio, hd);
        lemma_row_bounds(r, seqlen % ratio, hd);
        lemma_spliced_row(state, 0, tail, ratio, hd, r);
        assert(r * hd + c * hd == p * hd) by (nonlinear_arith)
            requires
                r == p - c,
        ;
        assert(tail.subrange(r * hd, (r + 1) * hd) =~= row(kv, p, hd));
    }
}

/// A decode keeps the partial group tracking, and where it completes the group,
/// the rows to pool are the last `ratio` rows in order.
pub proof fn lemma_decode_tracks<T>(state: Seq<T>, kv: Seq<T>, rows: Seq<Seq<T>>, ratio: int, hd: int)
    requires
        1 < ratio,
        0 <= hd,
        rows.len() > 0,
        kv.len() == hd,
        state_tracks(state, rows, ratio, hd),
    ensures
        state_tracks(state_after(state, kv, 1, rows.len() as int, ratio, hd), rows.push(kv), ratio, hd),
        completes_group(1, rows.len() as int, ratio) ==> forall|r: int|
            0 <= r < ratio ==> #[trigger] row(
                rows_to_pool(state, kv, 1, rows.len() as int, ratio, hd),
                r,
                hd,
            ) == rows.push(kv)[rows.len() + 1 - ratio + r],
{
    let end: int = rows.len() as int;
    let slot: int = end % ratio;
    let more: Seq<Seq<T>> = rows.push(kv);
    let after: Seq<T> = state_after(state, kv, 1, end, ratio, hd);
    let c: int = complete_rows(end, ratio);
    lemma_complete_rows(end, ratio, hd);
    lemma_complete_rows(end + 1, ratio, hd);
    lemma_row_bounds(slot, ratio, hd);
    assert forall|p: int| c <= p <= end implies #[trigger] more[p] == row(after, p - c, hd) && p % ratio == p - c by {
        let g: int = c / ratio;
        let r: int = p - c;
        lemma_fundamental_div_mod_converse(p, ratio, g, r);
        lemma_row_bounds(r, ratio, hd);
        lemma_spliced_row(state, slot * hd, kv, ratio, hd, r);
        if p < end {
            assert((r + 1) * hd <= slot * hd) by (nonlinear_arith)
                requires
                    r + 1 <= slot,
                    0 <= hd,
            ;
            assert(rows[p] == row(state, p % ratio, hd));
        } else {
            assert(kv.subrange(0, hd) =~= kv);
        }
    }
    if slot + 1 < ratio {
        lemma_fundamental_div_mod_converse(end + 1, ratio, c / ratio, slot + 1);
        assert(complete_rows(end + 1, ratio) == c);
    } else {
        assert((c / ratio + 1) * ratio == (c / ratio) * ratio + ratio) by (nonlinear_arith);
        lemma_fundamental_div_mod_converse(end + 1, ratio, c / ratio + 1, 0);
        assert(complete_rows(end + 1, ratio) == end + 1);
    }
    assert forall|p: int|
        complete_rows(more.len() as int, ratio) <= p < more.len() implies #[trigger] more[p] == row(
        after,
        p % ratio,
        hd,
    ) by {
        assert(c <= p <= end);
    }
    if completes_group(1, end, ratio) {
        assert(slot == ratio - 1);
        assert forall|r: int| 0 <= r < ratio implies #[trigger] row(
            rows_to_pool(state, kv, 1, end, ratio, hd),
            r,
            hd,
        ) == more[end + 1 - ratio + r] by {
            assert(c + r == end + 1 - ratio + r);
            assert(more[c + r] == row(after, r, hd));
        }
    }
}

/// The groups of a prefill are its rows in order: group `g` pools the rows of
/// the positions `g * ratio..(g + 1) * ratio`.
pub proof fn lemma_prefill_pools_in_order<T>(
    state: Seq<T>,
    kv: Seq<T>,
    seqlen: int,
    ratio: int,
    hd: int,
    g: int,
    r: int,
)
    requires
        1 < ratio,
        0 <= hd,
        0 <= seqlen,
        kv.len() == seqlen * hd,
        0 <= g < completed_groups(seqlen, 0, ratio),
        0 <= r < ratio,
    ensures
        g * ratio + r < seqlen,
        row(rows_to_pool(state, kv, seqlen, 0, ratio, hd), g * ratio + r, hd) == table_rows(kv, seqlen, hd)[g * ratio
            + r],
{
    lemma_complete_rows(seqlen, ratio, hd);
    let c: int = complete_rows(seqlen, ratio);
    lemma_row_bounds(g, c / ratio, ratio);
    let p: int = g * ratio + r;
    lemma_row_bounds(p, seqlen, hd);
    lemma_row_bounds(p, c, hd);
    assert(row(kv.take(c * hd), p, hd) =~= row(kv, p, hd));
}

/// The partial group and the pooled rows after a prefill of the first `first`
/// rows of `kv` and the decodes of the rows behind them, `len` rows in all.
pub open spec fn prefill_and_decodes<T>(
    state: Seq<T>,
    kv: Seq<T>,
    first: int,
    len: int,
    ratio: int,
    hd: int,
) -> (Seq<T>, Seq<T>)
    decreases len - first,
{
    if len <= first {
        let rows: Seq<T> = kv.take(first * hd);
        (
            state_after(state, rows, first, 0, ratio, hd),
            if completes_group(first, 0, ratio) {
                rows_to_pool(state, rows, first, 0, ratio, hd)
            } else {
                Seq::empty()
            },
        )
    } else {
        let done: (Seq<T>, Seq<T>) = prefill_and_decodes(state, kv, first, len - 1, ratio, hd);
        let last: Seq<T> = row(kv, len - 1, hd);
        (
            state_after(done.0, last, 1, len - 1, ratio, hd),
            if completes_group(1, len - 1, ratio) {
                done.1 + rows_to_pool(done.0, last, 1, len - 1, ratio, hd)
            } else {
                done.1
            },
        )
    }
}

/// The rows that a decode completes are those of the last group: behind the
/// rows of the earlier groups they make up all rows.
proof fn lemma_pooled_step<T>(state: Seq<T>, whole: Seq<T>, end: int, ratio: int, hd: int)
    requires
        1 < ratio,
        0 <= hd,
        0 < end,
        whole.len() == (end + 1) * hd,
        state_tracks(state, table_rows(whole, end, hd), ratio, hd),
    ensures
        ({
            let last: Seq<T> = row(whole, end, hd);
            let earlier: Seq<T> = whole.take(complete_rows(end, ratio) * hd);
            let now: Seq<T> = whole.take(complete_rows(end + 1, ratio) * hd);
            &&& completes_group(1, end, ratio) ==> now == earlier + rows_to_pool(state, last, 1, end, ratio, hd)
            &&& !completes_group(1, end, ratio) ==> now == earlier
        }),
        end < ratio ==> complete_rows(end, ratio) == 0,
        end + 1 < ratio ==> complete_rows(end + 1, ratio) == 0,
{
    let rows: Seq<Seq<T>> = table_rows(whole, end, hd);
    let last: Seq<T> = row(whole, end, hd);
    let slot: int = end % ratio;
    let c: int = complete_rows(end, ratio);
    lemma_row_bounds(end, end + 1, hd);
    lemma_complete_rows(end, ratio, hd);
    lemma_complete_rows(end + 1, ratio, hd);
    lemma_decode_tracks(state, last, rows, ratio, hd);
    if end < ratio {
        lemma_fundamental_div_mod_converse(end, ratio, 0, end);
    }
    if end + 1 < ratio {
        lemma_fundamental_div_mod_converse(end + 1, ratio, 0, end + 1);
    }
    let d: int = c / ratio;
    if slot + 1 < ratio {
        lemma_fundamental_div_mod_converse(end + 1, ratio, d, slot + 1);
    } else {
        assert((d + 1) * ratio == d * ratio + ratio) by (nonlinear_arith);
        lemma_fundamental_div_mod_converse(end + 1, ratio, d + 1, 0);
        let pool: Seq<T> = rows_to_pool(state, last, 1, end, ratio, hd);
        let group: Seq<T> = whole.skip(c * hd);
        assert((end + 1) * hd - c * hd == ratio * hd) by (nonlinear_arith)
            requires
                c + ratio == end + 1,
        ;
        assert forall|r: int| 0 <= r < ratio implies #[trigger] row(pool, r, hd) == row(group, r, hd) by {
            lemma_row_bounds(r, ratio, hd);
            lemma_row_bounds(c + r, end + 1, hd);
            assert((c + r) * hd == c * hd + r * hd) by (nonlinear_arith);
            assert(row(group, r, hd) =~= row(whole, c + r, hd));
            assert(row(pool, r, hd) == rows.push(last)[c + r]);
        }
        lemma_row_bounds(slot, ratio, hd);
        lemma_same_rows(pool, group, ratio, hd);
        assert(whole.take((end + 1) * hd) =~= whole.take(c * hd) + group);
    }
}

/// A prefill followed by decodes pools the rows that one prefill of them all
/// pools, in the same order; and above ratio 1 the partial group then holds the
/// rows since the last complete group, as after that prefill.
pub proof fn lemma_decodes_pool_as_prefill<T>(state: Seq<T>, kv: Seq<T>, first: int, len: int, ratio: int, hd: int)
    requires
        0 < ratio,
        0 <= hd,
        1 <= first <= len,
        len * hd <= kv.len(),
        ratio > 1 ==> state.len() == ratio * hd,
    ensures
        ({
            let run: (Seq<T>, Seq<T>) = prefill_and_decodes(state, kv, first, len, ratio, hd);
            let whole: Seq<T> = kv.take(len * hd);
            &&& run.1 == if completes_group(len, 0, ratio) {
                rows_to_pool(state, whole, len, 0, ratio, hd)
            } else {
                Seq::empty()
            }
            &&& ratio > 1 ==> state_tracks(run.0, table_rows(whole, len, hd), ratio, hd)
            &&& ratio > 1 ==> state_tracks(
                state_after(state, whole, len, 0, ratio, hd),
                table_rows(whole, len, hd),
                ratio,
                hd,
            )
        }),
    decreases len - first,
{
    let whole: Seq<T> = kv.take(len * hd);
    lemma_row_bounds(0, len, hd);
    lemma_complete_rows(len, ratio, hd);
    if ratio > 1 {
        lemma_prefill_tracks(state, whole, len, ratio, hd);
    }
    if first < len {
        let end: int = len - 1;
        let before: Seq<T> = kv.take(end * hd);
        let last: Seq<T> = row(kv, end, hd);
        let done: (Seq<T>, Seq<T>) = prefill_and_decodes(state, kv, first, end, ratio, hd);
        lemma_row_bounds(end, len, hd);
        lemma_decodes_pool_as_prefill(state, kv, first, end, ratio, hd);
        assert(before + last =~= whole);
        if ratio > 1 {
            let rows: Seq<Seq<T>> = table_rows(before, end, hd);
            assert forall|p: int| 0 <= p < end implies #[trigger] row(whole, p, hd) == row(before, p, hd) by {
                lemma_row_bounds(p, end, hd);
                assert(row(whole, p, hd) =~= row(before, p, hd));
            }
            assert(row(whole, end, hd) =~= last);
            assert(table_rows(whole, len, hd) =~= rows.push(last));
            lemma_decode_tracks(done.0, last, rows, ratio, hd);
            assert(rows =~= table_rows(whole, end, hd));
            lemma_pooled_step(done.0, whole, end, ratio, hd);
            lemma_complete_rows(end, ratio, hd);
            assert(before.take(complete_rows(end, ratio) * hd) =~= whole.take(complete_rows(end, ratio) * hd));
            assert(done.1 =~= whole.take(complete_rows(end, ratio) * hd));
        }
    }
}

/// The indexer's geometry.
pub struct IndexerCfg {
    pub n_heads: usize,
    pub index_hd: usize,
    pub rope_dim: usize,
    pub q_rank: usize,
    pub dim: usize,
    pub hd: usize,
    pub index_topk: usize,
    pub cand_topk_blocks: usize,
    pub cand_block: usize,
    /// bit pattern of the norm's epsilon
    pub eps: u32,
}

/// One layer's attention geometry and its role in the shared runtime.
pub struct CompAttnCfg {
    pub dim: usize,
    pub n_heads: usize,
    pub head_dim: usize,
    pub rope_dim: usize,
    pub q_rank: usize,
    pub o_rank: usize,
    pub groups: usize,
    pub window: usize,
    /// bit pattern of the norm's epsilon
    pub eps: u32,
    pub ratio: usize,
    pub is_kv_source: bool,
    pub is_index_source: bool,
    pub is_candidate_source: bool,
    pub uses_candidates: bool,
}

/// What source layers publish and later layers read.
pub struct SharedRuntime {
    /// the source's full cache `[max_groups][hd]`
    pub compress_kv: Vec<u32>,
    /// the source's full index-key cache `[max_groups][index_hd]`
    pub index_k: Vec<u32>,
    /// `[queries][topk]`, already offset for the window rows
    pub topk_idxs: Vec<i32>,
    pub topk: usize,
    /// `[queries][width]`
    pub candidates: Vec<bool>,
    pub cand_width: usize,
}

impl Default for SharedRuntime {
    fn default() -> (r: Self)
        ensures
            r.compress_kv@.len() == 0,
            r.index_k@.len() == 0,
            r.topk_idxs@.len() == 0,
            r.topk == 0,
            r.candidates@.len() == 0,
            r.cand_width == 0,
    {
        SharedRuntime {
            compress_kv: Vec::new(),
            index_k: Vec::new(),
            topk_idxs: Vec::new(),
            topk: 0,
            candidates: Vec::new(),
            cand_width: 0,
        }
    }
}

/// One layer's state across prefill and decode.
pub struct LayerAttnState {
    /// `[window][hd]`
    pub window: Vec<u32>,
    pub compressor: Option<CompressorState>,
    /// `[max_groups][hd]`
    pub compress_kv_cache: Option<Vec<u32>>,
    /// `[max_groups][index_hd]`
    pub k_cache: Option<Vec<u32>>,
}

/// How many compressed positions a layer can hold.
pub open spec fn max_groups(max_seq: int, ratio: int) -> int {
    if ratio > 0 {
        max_seq / ratio
    } else {
        0
    }
}

impl LayerAttnState {
    /// Empty state: zero rows everywhere; the caches and the partial group only
    /// on layers that produce compressed rows.
    pub fn new(c: &CompAttnCfg, max_seq: usize, index_hd: usize) -> (r: Self)
        requires
            c.window * c.head_dim <= usize::MAX,
            c.is_kv_source ==> {
                &&& c.ratio * c.head_dim <= usize::MAX
                &&& max_groups(max_seq as int, c.ratio as int) * c.head_dim <= usize::MAX
                &&& max_groups(max_seq as int, c.ratio as int) * index_hd <= usize::MAX
            },
        ensures
            r.window@ == Seq::new((c.window * c.head_dim) as nat, |i: int| 0u32),
            r.compressor is Some <==> c.is_kv_source,
            r.compress_kv_cache is Some <==> c.is_kv_source,
            r.k_cache is Some <==> c.is_kv_source,
            r.compressor matches Some(s) ==> {
                let ratio: int = if c.ratio > 1 { c.ratio as int } else { 1 };
                &&& s.wf(ratio, c.head_dim as int)
                &&& s.kv_state@ == Seq::new((ratio * c.head_dim) as nat, |i: int| 0u32)
                &&& s.score_state@ == Seq::new((ratio * c.head_dim) as nat, |i: int| NEG_INFINITY)
            },
            r.compress_kv_cache matches Some(v) ==> v@ == Seq::new(
                (max_groups(max_seq as int, c.ratio as int) * c.head_dim) as nat,
                |i: int| 0u32,
            ),
            r.k_cache matches Some(v) ==> v@ == Seq::new(
                (max_groups(max_seq as int, c.ratio as int) * index_hd) as nat,
                |i: int| 0u32,
            ),
    {
        let window: Vec<u32> = filled(0u32, c.window * c.head_dim);
        if c.is_kv_source {
            let groups: usize = if c.ratio > 0 { max_seq / c.ratio } else { 0 };
            let ratio: usize = if c.ratio > 1 { c.ratio } else { 1 };
            LayerAttnState {
                window,
                compressor: Some(CompressorState::new(ratio, c.head_dim)),
                compress_kv_cache: Some(filled(0u32, groups * c.head_dim)),
                k_cache: Some(filled(0u32, groups * index_hd)),
            }
        } else {
            LayerAttnState { window, compressor: None, compress_kv_cache: None, k_cache: None }
        }
    }
}

/// The positions of the latents that a call completes: the first of each
/// group.
pub open spec fn group_starts(groups: int, ratio: int, start_pos: int) -> Seq<usize> {
    if start_pos == 0 {
        Seq::new(groups as nat, |g: int| (g * ratio) as usize)
    } else {
        seq![(start_pos + 1 - ratio) as usize]
    }
}

/// The positions that the latents of a call are rotated to.
pub fn latent_positions(groups: usize, ratio: usize, start_pos: usize) -> (r: Vec<usize>)
    requires
        start_pos == 0 ==> groups * ratio <= usize::MAX,
        start_pos != 0 ==> ratio <= start_pos + 1 <= usize::MAX,
    ensures
        r@ == group_starts(groups as int, ratio as int, start_pos as int),
{
    let mut out: Vec<usize> = Vec::new();
    if start_pos == 0 {
        for g in 0..groups
            invariant
                start_pos == 0,
                groups * ratio <= usize::MAX,
                out@ == group_starts(groups as int, ratio as int, start_pos as int).take(g as int),
        {
            proof {
                lemma_row_bounds(g as int, groups as int, ratio as int);
            }
            out.push(g * ratio);
            assert(out@ =~= group_starts(groups as int, ratio as int, start_pos as int).take(g + 1));
        }
        assert(out@ =~= group_starts(groups as int, ratio as int, start_pos as int));
    } else {
        out.push(start_pos + 1 - ratio);
        assert(out@ =~= group_starts(groups as int, ratio as int, start_pos as int));
    }
    out
}

/// Writes this call's latent rows into the ring. Returns the rows that the
/// queries see: the call's own on prefill, the ring on decode.
pub fn attend_window(kv: &[u32], seqlen: usize, start_pos: usize, c: &CompAttnCfg, st: &mut LayerAttnState) -> (r: Vec<
    u32,
>)
    requires
        window_write_in_range(
            old(st).window@,
            kv@,
            seqlen as int,
            start_pos as int,
            c.window as int,
            c.head_dim as int,
        ),
    ensures
        final(st).window@ == window_after(
            old(st).window@,
            kv@,
            seqlen as int,
            start_pos as int,
            c.window as int,
            c.head_dim as int,
        ),
        final(st).compressor == old(st).compressor,
        final(st).compress_kv_cache == old(st).compress_kv_cache,
        final(st).k_cache == old(st).k_cache,
        r@ == if start_pos == 0 {
            kv@
        } else {
            final(st).window@
        },
{
    write_window(&mut st.window, kv, seqlen, start_pos, c.window, c.head_dim);
    if start_pos == 0 {
        copied(kv)
    } else {
        copied(st.window.as_slice())
    }
}

/// The compressor step of a layer that produces compressed rows: groups this
/// call's projections and publishes the layer's latent cache.
pub fn compress_layer(
    kv: &[u32],
    score: &[u32],
    seqlen: usize,
    start_pos: usize,
    c: &CompAttnCfg,
    st: &mut LayerAttnState,
    shared: &mut SharedRuntime,
) -> (r: Option<PoolInput>)
    requires
        old(st).compressor is Some,
        old(st).compress_kv_cache is Some,
        compressor_in_range(
            kv@,
            score@,
            seqlen as int,
            start_pos as int,
            c.ratio as int,
            c.head_dim as int,
            old(st).compressor->0,
        ),
    ensures
        final(st).window == old(st).window,
        final(st).compress_kv_cache == old(st).compress_kv_cache,
        final(st).k_cache == old(st).k_cache,
        final(st).compressor is Some,
        final(st).compressor->0.kv_state@ == state_after(
            old(st).compressor->0.kv_state@,
            kv@,
            seqlen as int,
            start_pos as int,
            c.ratio as int,
            c.head_dim as int,
        ),
        final(st).compressor->0.score_state@ == if c.ratio == 1 {
            old(st).compressor->0.score_state@
        } else {
            state_after(
                old(st).compressor->0.score_state@,
                score@,
                seqlen as int,
                start_pos as int,
                c.ratio as int,
                c.head_dim as int,
            )
        },
        final(shared).compress_kv@ == (old(st).compress_kv_cache->0)@,
        final(shared).index_k == old(shared).index_k,
        final(shared).topk_idxs == old(shared).topk_idxs,
        final(shared).topk == old(shared).topk,
        final(shared).candidates == old(shared).candidates,
        final(shared).cand_width == old(shared).cand_width,
        r is Some <==> completes_group(seqlen as int, start_pos as int, c.ratio as int),
        r matches Some(p) ==> {
            &&& p.groups == completed_groups(seqlen as int, start_pos as int, c.ratio as int)
            &&& p.kv@ == rows_to_pool(
                old(st).compressor->0.kv_state@,
                kv@,
                seqlen as int,
                start_pos as int,
                c.ratio as int,
                c.head_dim as int,
            )
            &&& p.score@ == if c.ratio == 1 {
                Seq::<u32>::empty()
            } else {
                rows_to_pool(
                    old(st).compressor->0.score_state@,
                    score@,
                    seqlen as int,
                    start_pos as int,
                    c.ratio as int,
                    c.head_dim as int,
                )
            }
        },
{
    let r: Option<PoolInput> = match &mut st.compressor {
        Some(state) => compressor(kv, score, seqlen, start_pos, c.ratio, c.head_dim, state),
        None => None,
    };
    if let Some(cache) = &st.compress_kv_cache {
        shared.compress_kv = copied(cache.as_slice());
    }
    r
}

/// Writes this call's index keys behind the earlier ones and publishes the
/// layer's key cache.
pub fn publish_index_keys(
    keys: &[u32],
    start_pos: usize,
    ratio: usize,
    index_hd: usize,
    cache: &mut Vec<u32>,
    shared: &mut SharedRuntime,
)
    requires
        0 < ratio,
        (start_pos / ratio) * index_hd + keys@.len() <= old(cache)@.len(),
    ensures
        final(cache)@ == spliced(old(cache)@, (start_pos / ratio) * index_hd, keys@),
        final(shared).index_k@ == final(cache)@,
        final(shared).compress_kv == old(shared).compress_kv,
        final(shared).topk_idxs == old(shared).topk_idxs,
        final(shared).topk == old(shared).topk,
        final(shared).candidates == old(shared).candidates,
        final(shared).cand_width == old(shared).cand_width,
{
    let held: usize = cache.len();
    proof {
        assert(0 <= (start_pos / ratio) * index_hd) by (nonlinear_arith)
            requires
                0 <= start_pos / ratio,
                0 <= index_hd,
        ;
    }
    overwrite(cache, (start_pos / ratio) * index_hd, keys);
    shared.index_k = copied(cache.as_slice());
}

/// The selection that an indexer call asks for.
pub open spec fn index_request(
    seqlen: usize,
    start_pos: usize,
    offset: usize,
    ratio: usize,
    c: IndexerCfg,
    is_candidate_source: bool,
    uses_candidates: bool,
) -> IndexRequest {
    IndexRequest {
        m: seqlen,
        start_pos,
        offset,
        ratio,
        index_topk: c.index_topk,
        cand_topk_blocks: c.cand_topk_blocks,
        cand_block: c.cand_block,
        is_candidate_source,
        uses_candidates,
    }
}

/// Whether the selections of an indexer call settle.
pub fn indexer_settles(
    score: &[u32],
    seqlen: usize,
    start_pos: usize,
    offset: usize,
    ratio: usize,
    c: &IndexerCfg,
    shared: &SharedRuntime,
    is_candidate_source: bool,
    uses_candidates: bool,
) -> (r: bool)
    requires
        index_request(seqlen, start_pos, offset, ratio, *c, is_candidate_source, uses_candidates).in_range(
            score@.len() as int,
            shared.candidates@.len() as int,
        ),
    ensures
        r == index_request(seqlen, start_pos, offset, ratio, *c, is_candidate_source, uses_candidates).settles(
            score@,
            shared.candidates@,
        ),
{
    let req: IndexRequest = IndexRequest {
        m: seqlen,
        start_pos,
        offset,
        ratio,
        index_topk: c.index_topk,
        cand_topk_blocks: c.cand_topk_blocks,
        cand_block: c.cand_block,
        is_candidate_source,
        uses_candidates,
    };
    index_selection_if_settled(score, &req, shared.candidates.as_slice()).is_some()
}

/// The indexer's selection from its scores `[seqlen][width]`: the compressed
/// positions `[queries][topk]`, offset by `offset`, -1 where unreachable. A
/// candidate source publishes its mask.
pub fn indexer(
    score: &[u32],
    seqlen: usize,
    start_pos: usize,
    offset: usize,
    ratio: usize,
    c: &IndexerCfg,
    shared: &mut SharedRuntime,
    is_candidate_source: bool,
    uses_candidates: bool,
) -> (r: (Vec<i32>, usize))
    requires
        index_request(seqlen, start_pos, offset, ratio, *c, is_candidate_source, uses_candidates).in_range(
            score@.len() as int,
            old(shared).candidates@.len() as int,
        ),
        index_request(seqlen, start_pos, offset, ratio, *c, is_candidate_source, uses_candidates).settles(
            score@,
            old(shared).candidates@,
        ),
    ensures
        ({
            let req: IndexRequest = index_request(
                seqlen,
                start_pos,
                offset,
                ratio,
                *c,
                is_candidate_source,
                uses_candidates,
            );
            &&& r.0@ == req.index_table(score@, old(shared).candidates@)
            &&& r.1 == req.topk()
            &&& is_candidate_source ==> final(shared).candidates@ == req.published_candidates(score@)
                && final(shared).cand_width == req.width()
        }),
        !is_candidate_source ==> final(shared).candidates == old(shared).candidates && final(shared).cand_width
            == old(shared).cand_width,
        final(shared).compress_kv == old(shared).compress_kv,
        final(shared).index_k == old(shared).index_k,
        final(shared).topk_idxs == old(shared).topk_idxs,
        final(shared).topk == old(shared).topk,
{
    let req: IndexRequest = IndexRequest {
        m: seqlen,
        start_pos,
        offset,
        ratio,
        index_topk: c.index_topk,
        cand_topk_blocks: c.cand_topk_blocks,
        cand_block: c.cand_block,
        is_candidate_source,
        uses_candidates,
    };
    let sel: IndexSelection = index_selection_if_settled(score, &req, shared.candidates.as_slice()).unwrap();
    if let Some(mask) = sel.candidates {
        shared.candidates = mask;
        shared.cand_width = (start_pos + seqlen) / ratio;
    }
    (sel.idx, sel.topk)
}

/// Window slots and compressed positions side by side, per query.
pub open spec fn merged_index(a: Seq<i32>, a_topk: int, b: Seq<i32>, b_topk: int, m: int) -> Seq<i32> {
    concat_rows(m as nat, |t: int| row(a, t, a_topk) + row(b, t, b_topk))
}

/// Puts the window slots and the compressed positions of each query side by
/// side.
pub fn merge_index(a: &[i32], a_topk: usize, b: &[i32], b_topk: usize, m: usize) -> (r: Vec<i32>)
    requires
        m * a_topk <= a@.len(),
        m * b_topk <= b@.len(),
    ensures
        r@ == merged_index(a@, a_topk as int, b@, b_topk as int, m as int),
{
    let a_len: usize = a.len();
    let b_len: usize = b.len();
    let mut out: Vec<i32> = Vec::new();
    let ghost f = |t: int| row(a@, t, a_topk as int) + row(b@, t, b_topk as int);
    for t in 0..m
        invariant
            a_len == a@.len(),
            b_len == b@.len(),
            m * a_topk <= a_len,
            m * b_topk <= b_len,
            f == |t: int| row(a@, t, a_topk as int) + row(b@, t, b_topk as int),
            out@ == concat_rows(t as nat, f),
    {
        proof {
            lemma_row_bounds(t as int, m as int, a_topk as int);
            lemma_row_bounds(t as int, m as int, b_topk as int);
        }
        let ghost done: Seq<i32> = out@;
        append(&mut out, slice_subrange(a, t * a_topk, (t + 1) * a_topk));
        append(&mut out, slice_subrange(b, t * b_topk, (t + 1) * b_topk));
        assert(out@ =~= done + f(t as int));
    }
    out
}

/// What a layer's attention reads: the rows and, per query, which of them.
pub struct CompAttnRun {
    /// the window rows, then the compressed rows
    pub kv_rows: Vec<u32>,
    /// `[queries][topk]`
    pub idx: Vec<i32>,
    pub topk: usize,
}

/// Which compressed positions a layer attends: those of the last index source
/// above it, none before the first group is complete, or its own selection.
pub open spec fn attended_selection(
    c: CompAttnCfg,
    compress_len: int,
    selection: (Seq<i32>, usize),
    shared: SharedRuntime,
) -> (Seq<i32>, usize) {
    if !c.is_index_source {
        (shared.topk_idxs@, shared.topk)
    } else if compress_len == 0 {
        (Seq::empty(), 0)
    } else {
        selection
    }
}

/// The latent cache of a layer after its call's latents were written.
pub open spec fn latents_stored<T>(cache: Seq<T>, latents: Option<Seq<T>>, start_pos: int, ratio: int, hd: int) -> Seq<T> {
    match latents {
        Some(rows) => spliced(cache, (start_pos / ratio) * hd, rows),
        None => cache,
    }
}

/// The last step before a layer's attention: stores the call's latents
/// (rotated and quantised), publishes the cache and the selection, and puts
/// together the rows and positions that are attended.
///
/// `kv_rows` is what [`attend_window`] returned, `selection` what [`indexer`]
/// returned where the layer ran one, `window_idx` the window slots
/// `[queries][window_topk]`.
pub fn attention_any(
    seqlen: usize,
    start_pos: usize,
    kv_rows: Vec<u32>,
    latents: Option<Vec<u32>>,
    window_idx: Vec<i32>,
    window_topk: usize,
    selection: (Vec<i32>, usize),
    c: &CompAttnCfg,
    st: &mut LayerAttnState,
    shared: &mut SharedRuntime,
) -> (r: CompAttnRun)
    requires
        start_pos + seqlen <= usize::MAX,
        latents is Some ==> c.ratio > 0 && old(st).compress_kv_cache is Some,
        c.ratio > 0 ==> {
            let len: int = (start_pos + seqlen) / c.ratio as int;
            let attended: (Seq<i32>, usize) = attended_selection(*c, len, (selection.0@, selection.1), *old(shared));
            &&& seqlen * window_topk <= window_idx@.len()
            &&& seqlen * attended.1 <= attended.0.len()
            &&& window_topk + attended.1 <= usize::MAX
            &&& latents matches Some(rows) ==> (start_pos / c.ratio) * c.head_dim + rows@.len() <= (
            old(st).compress_kv_cache->0)@.len()
            &&& latents is None ==> len * c.head_dim <= old(shared).compress_kv@.len()
            &&& latents is Some ==> len * c.head_dim <= (old(st).compress_kv_cache->0)@.len()
        },
    ensures
        final(st).window == old(st).window,
        final(st).compressor == old(st).compressor,
        final(st).k_cache == old(st).k_cache,
        final(st).compress_kv_cache is Some <==> old(st).compress_kv_cache is Some,
        final(st).compress_kv_cache matches Some(cache) ==> cache@ == latents_stored(
            (old(st).compress_kv_cache->0)@,
            match latents {
                Some(rows) => Some(rows@),
                None => None,
            },
            start_pos as int,
            c.ratio as int,
            c.head_dim as int,
        ),
        final(shared).index_k == old(shared).index_k,
        final(shared).candidates == old(shared).candidates,
        final(shared).cand_width == old(shared).cand_width,
        final(shared).compress_kv@ == if latents is Some {
            (final(st).compress_kv_cache->0)@
        } else {
            old(shared).compress_kv@
        },
        ({
            let len: int = (start_pos + seqlen) / c.ratio as int;
            let attended: (Seq<i32>, usize) = attended_selection(*c, len, (selection.0@, selection.1), *old(shared));
            if c.ratio == 0 {
                &&& r.kv_rows@ == kv_rows@
                &&& r.idx@ == window_idx@
                &&& r.topk == window_topk
                &&& final(shared).topk_idxs == old(shared).topk_idxs
                &&& final(shared).topk == old(shared).topk
            } else {
                &&& r.kv_rows@ == kv_rows@ + final(shared).compress_kv@.take(len * c.head_dim)
                &&& r.idx@ == merged_index(
                    window_idx@,
                    window_topk as int,
                    attended.0,
                    attended.1 as int,
                    seqlen as int,
                )
                &&& r.topk == window_topk + attended.1
                &&& if c.is_index_source && len > 0 {
                    final(shared).topk_idxs@ == selection.0@ && final(shared).topk == selection.1
                } else {
                    final(shared).topk_idxs == old(shared).topk_idxs && final(shared).topk == old(shared).topk
                }
            }
        }),
{
    if c.ratio == 0 {
        return CompAttnRun { kv_rows, idx: window_idx, topk: window_topk };
    }
    let compress_len: usize = (start_pos + seqlen) / c.ratio;
    let mut own: Vec<i32> = Vec::new();
    let mut own_topk: usize = 0;
    if !c.is_index_source {
        own = copied(shared.topk_idxs.as_slice());
        own_topk = shared.topk;
    } else if compress_len > 0 {
        own = copied(selection.0.as_slice());
        own_topk = selection.1;
        shared.topk_idxs = selection.0;
        shared.topk = selection.1;
    }
    if let Some(rows) = latents {
        if let Some(cache) = &mut st.compress_kv_cache {
            let held: usize = cache.len();
            proof {
                assert(0 <= (start_pos / c.ratio) * c.head_dim) by (nonlinear_arith)
                    requires
                        0 <= start_pos / c.ratio,
                        0 <= c.head_dim,
                ;
            }
            overwrite(cache, (start_pos / c.ratio) * c.head_dim, rows.as_slice());
            shared.compress_kv = copied(cache.as_slice());
        }
    }
    let published: usize = shared.compress_kv.len();
    proof {
        assert(0 <= compress_len * c.head_dim) by (nonlinear_arith)
            requires
                0 <= compress_len,
                0 <= c.head_dim,
        ;
    }
    let mut rows_out: Vec<u32> = kv_rows;
    let part: &[u32] = slice_subrange(shared.compress_kv.as_slice(), 0, compress_len * c.head_dim);
    assert(part@ =~= shared.compress_kv@.take(compress_len * c.head_dim));
    append(&mut rows_out, part);
    let idx: Vec<i32> = merge_index(window_idx.as_slice(), window_topk, own.as_slice(), own_topk, seqlen);
    CompAttnRun { kv_rows: rows_out, idx, topk: window_topk + own_topk }
}

/// A cache holds the latents of the first groups, in order.
pub open spec fn cache_holds<T>(cache: Seq<T>, latents: Seq<Seq<T>>, hd: int) -> bool {
    &&& latents.len() * hd <= cache.len()
    &&& forall|g: int| 0 <= g < latents.len() ==> #[trigger] row(cache, g, hd) == latents[g]
}

/// A prefill's latents fill the front of the cache, and there are as many as
/// compressed positions exist.
pub proof fn lemma_prefill_latents_stored<T>(cache: Seq<T>, rows: Seq<T>, seqlen: int, ratio: int, hd: int)
    requires
        0 < ratio,
        0 <= hd,
        0 <= seqlen,
        completes_group(seqlen, 0, ratio),
        rows.len() == completed_groups(seqlen, 0, ratio) * hd,
        rows.len() <= cache.len(),
    ensures
        completed_groups(seqlen, 0, ratio) == seqlen / ratio,
        cache_holds(
            latents_stored(cache, Some(rows), 0, ratio, hd),
            table_rows(rows, completed_groups(seqlen, 0, ratio), hd),
            hd,
        ),
{
    lemma_complete_rows(seqlen, ratio, hd);
    let groups: int = completed_groups(seqlen, 0, ratio);
    let after: Seq<T> = latents_stored(cache, Some(rows), 0, ratio, hd);
    let latents: Seq<Seq<T>> = table_rows(rows, groups, hd);
    assert(0int / ratio == 0) by (nonlinear_arith)
        requires
            0 < ratio,
    ;
    assert(0 * hd == 0);
    assert(seqlen / 1 == seqlen);
    assert forall|g: int| 0 <= g < latents.len() implies #[trigger] row(after, g, hd) == latents[g] by {
        lemma_row_bounds(g, groups, hd);
        assert(row(after, g, hd) =~= row(rows, g, hd));
    }
}

/// A decode that completes a group adds its latent behind the earlier ones;
/// the others add none. Either way there are as many latents as compressed
/// positions.
pub proof fn lemma_decode_latents_stored<T>(
    cache: Seq<T>,
    latents: Seq<Seq<T>>,
    latent: Seq<T>,
    start_pos: int,
    ratio: int,
    hd: int,
)
    requires
        0 < ratio,
        0 <= hd,
        0 < start_pos,
        latents.len() == start_pos / ratio,
        cache_holds(cache, latents, hd),
        latent.len() == hd,
        (latents.len() + 1) * hd <= cache.len(),
    ensures
        completes_group(1, start_pos, ratio) ==> {
            &&& completed_groups(1, start_pos, ratio) == 1
            &&& (start_pos + 1) / ratio == latents.len() + 1
            &&& cache_holds(latents_stored(cache, Some(latent), start_pos, ratio, hd), latents.push(latent), hd)
        },
        !completes_group(1, start_pos, ratio) ==> (start_pos + 1) / ratio == latents.len(),
{
    let n: int = latents.len() as int;
    lemma_complete_rows(start_pos, ratio, hd);
    lemma_complete_rows(start_pos + 1, ratio, hd);
    let rem: int = start_pos % ratio;
    vstd::arithmetic::div_mod::lemma_fundamental_div_mod(start_pos, ratio);
    assert(ratio * n == n * ratio) by (nonlinear_arith);
    if rem + 1 < ratio {
        lemma_fundamental_div_mod_converse(start_pos + 1, ratio, n, rem + 1);
    } else {
        assert((n + 1) * ratio == n * ratio + ratio) by (nonlinear_arith);
        lemma_fundamental_div_mod_converse(start_pos + 1, ratio, n + 1, 0);
    }
    if completes_group(1, start_pos, ratio) {
        let after: Seq<T> = latents_stored(cache, Some(latent), start_pos, ratio, hd);
        let more: Seq<Seq<T>> = latents.push(latent);
        assert forall|g: int| 0 <= g < more.len() implies #[trigger] row(after, g, hd) == more[g] by {
            lemma_row_bounds(g, n + 1, hd);
            if g < n {
                lemma_row_bounds(g, n, hd);
                assert(row(after, g, hd) =~= row(cache, g, hd));
            } else {
                assert(row(after, g, hd) =~= latent);
            }
        }
    }
}

} // verus!
