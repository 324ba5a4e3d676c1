//! Which compressed positions a query attends to: the block-level candidates
//! and the index top-k, from the indexer's scores.

use crate::float_bits::{before, float_gt, greater, is_nan, larger, lemma_before_is_rank_order, max_float, rank, INFINITY, NEG_INFINITY};
use crate::rows::{append, concat_rows, filled, lemma_concat_rows_len, lemma_row_bounds, row};
use crate::topk::{
    lemma_topk_picks_are_top, topk_in_range, topk_picks, topk_set_if_settled, topk_settles,
};
use vstd::prelude::*;
use vstd::slice::slice_subrange;

verus! {

/// How many blocks of `block` positions cover `width` positions.
pub open spec fn block_count(width: int, block: int) -> int {
    (width + block - 1) / block
}

/// The largest float of a sequence, ignoring NaN; negative infinity of none.
pub open spec fn largest(s: Seq<u32>) -> u32
    decreases s.len(),
{
    if s.len() == 0 {
        NEG_INFINITY
    } else {
        larger(largest(s.drop_last()), s.last())
    }
}

/// Where block `b` ends in a row of `width` positions.
pub open spec fn block_end(b: int, block: int, width: int) -> int {
    if (b + 1) * block < width {
        (b + 1) * block
    } else {
        width
    }
}

/// Block `b` holds the newest of `len` positions.
pub open spec fn is_newest_block(b: int, block: int, len: int) -> bool {
    len > 0 && b == (len - 1) / block
}

/// The scores of a row's blocks: the largest score inside the block, and
/// infinity for the block that holds the newest position.
pub open spec fn block_scores(scores: Seq<u32>, len: int, block: int) -> Seq<u32> {
    let width: int = scores.len() as int;
    Seq::new(
        block_count(width, block) as nat,
        |b: int|
            if is_newest_block(b, block, len) {
                INFINITY
            } else {
                largest(scores.subrange(b * block, block_end(b, block, width)))
            },
    )
}

/// How many blocks of a row of `width` positions are looked for.
pub open spec fn block_budget(width: int, topk_blocks: int, block: int) -> int {
    if topk_blocks < block_count(width, block) {
        topk_blocks
    } else {
        block_count(width, block)
    }
}

/// The blocks that a row's selection picks.
pub open spec fn picked_blocks(scores: Seq<u32>, len: int, topk_blocks: int, block: int) -> Seq<usize> {
    topk_picks(block_scores(scores, len, block), block_budget(scores.len() as int, topk_blocks, block))
}

/// Which positions of a row are candidates: those of the picked blocks that
/// hold any score above negative infinity, or the newest position.
pub open spec fn candidate_row(scores: Seq<u32>, len: int, topk_blocks: int, block: int) -> Seq<bool> {
    Seq::new(
        scores.len(),
        |i: int|
            picked_blocks(scores, len, topk_blocks, block).contains((i / block) as usize) && float_gt(
                block_scores(scores, len, block)[i / block],
                NEG_INFINITY,
            ),
    )
}

/// The candidate mask of all queries.
pub open spec fn candidate_mask(
    logits: Seq<u32>,
    queries: int,
    width: int,
    lens: Seq<usize>,
    topk_blocks: int,
    block: int,
) -> Seq<bool> {
    concat_rows(
        queries as nat,
        |q: int| candidate_row(row(logits, q, width), lens[q] as int, topk_blocks, block),
    )
}

/// The block selection of a row settles.
pub open spec fn blocks_settle(scores: Seq<u32>, len: int, topk_blocks: int, block: int) -> bool {
    topk_settles(block_scores(scores, len, block), block_budget(scores.len() as int, topk_blocks, block))
}

/// The block selections of all queries settle.
pub open spec fn all_blocks_settle(
    logits: Seq<u32>,
    queries: int,
    width: int,
    lens: Seq<usize>,
    topk_blocks: int,
    block: int,
) -> bool {
    forall|q: int|
        0 <= q < queries ==> #[trigger] blocks_settle(row(logits, q, width), lens[q] as int, topk_blocks, block)
}

/// The tables and counts that a candidate selection takes.
pub open spec fn candidates_in_range(
    logits_len: int,
    queries: int,
    width: int,
    lens: Seq<usize>,
    topk_blocks: int,
    block: int,
) -> bool {
    &&& 0 < block <= i64::MAX
    &&& width + block - 1 <= usize::MAX
    &&& queries * width <= logits_len
    &&& queries <= lens.len()
    &&& forall|q: int| 0 <= q < queries ==> (#[trigger] lens[q]) <= i64::MAX
    &&& queries > 0 ==> topk_in_range(block_count(width, block), block_budget(width, topk_blocks, block))
}

proof fn lemma_block_of(i: int, b: int, block: int, width: int)
    requires
        0 < block,
        0 <= i < width,
        0 <= b,
    ensures
        i / block == b <==> b * block <= i < block_end(b, block, width),
        0 <= i / block < block_count(width, block),
{
    let d: int = i / block;
    assert(d * block <= i < (d + 1) * block) by (nonlinear_arith)
        requires
            0 < block,
            d == i / block,
    ;
    if b * block <= i < (b + 1) * block {
        assert(b == d) by (nonlinear_arith)
            requires
                b * block <= i < (b + 1) * block,
                d * block <= i < (d + 1) * block,
                0 < block,
        ;
    }
    let nb: int = block_count(width, block);
    assert(0 <= d < nb) by (nonlinear_arith)
        requires
            0 < block,
            d * block <= i,
            0 <= i < width,
            d == i / block,
            nb == (width + block - 1) / block,
    ;
}

proof fn lemma_block_bounds(b: int, block: int, width: int)
    requires
        0 < block,
        0 <= b < block_count(width, block),
    ensures
        0 <= b * block < width,
        b * block < block_end(b, block, width) <= width,
        (b + 1) * block <= width + block - 1,
        (b + 1) * block == b * block + block,
{
    let nb: int = block_count(width, block);
    assert(0 <= b * block && (b + 1) * block == b * block + block) by (nonlinear_arith)
        requires
            0 <= b,
            0 < block,
    ;
    assert((b + 1) * block <= nb * block) by (nonlinear_arith)
        requires
            b + 1 <= nb,
            0 < block,
    ;
    assert(nb * block <= width + block - 1) by (nonlinear_arith)
        requires
            nb == (width + block - 1) / block,
            0 < block,
    ;
}

fn largest_in(s: &[u32], from: usize, to: usize) -> (r: u32)
    requires
        from <= to <= s@.len(),
    ensures
        r == largest(s@.subrange(from as int, to as int)),
{
    let mut r: u32 = NEG_INFINITY;
    let mut i: usize = from;
    assert(s@.subrange(from as int, from as int) =~= Seq::<u32>::empty());
    while i < to
        invariant
            from <= i <= to <= s@.len(),
            r == largest(s@.subrange(from as int, i as int)),
        decreases to - i,
    {
        r = max_float(r, s[i]);
        assert(s@.subrange(from as int, i + 1).drop_last() =~= s@.subrange(from as int, i as int));
        i = i + 1;
    }
    r
}

fn score_blocks(scores: &[u32], len: usize, block: usize) -> (r: Vec<u32>)
    requires
        0 < block,
        scores@.len() + block - 1 <= usize::MAX,
    ensures
        r@ == block_scores(scores@, len as int, block as int),
{
    let width: usize = scores.len();
    let nb: usize = if width == 0 { 0 } else { (width - 1) / block + 1 };
    assert(nb == block_count(width as int, block as int)) by {
        if width == 0 {
            assert((block - 1) / block as int == 0) by (nonlinear_arith)
                requires
                    0 < block,
            ;
        } else {
            assert((width - 1 + block) / block as int == (width - 1) / block as int + 1) by (nonlinear_arith)
                requires
                    0 < block,
                    0 < width,
            ;
        }
    }
    let mut r: Vec<u32> = Vec::with_capacity(nb);
    for b in 0..nb
        invariant
            0 < block,
            width == scores@.len(),
            width + block - 1 <= usize::MAX,
            nb == block_count(width as int, block as int),
            r@ == block_scores(scores@, len as int, block as int).take(b as int),
    {
        proof {
            lemma_block_bounds(b as int, block as int, width as int);
        }
        let from: usize = b * block;
        let next: usize = (b + 1) * block;
        let to: usize = if next < width { next } else { width };
        let newest: bool = len > 0 && (len - 1) / block == b;
        r.push(if newest { INFINITY } else { largest_in(scores, from, to) });
        assert(r@ =~= block_scores(scores@, len as int, block as int).take(b + 1));
    }
    assert(r@ =~= block_scores(scores@, len as int, block as int));
    r
}

fn mark_candidates(scores: &[u32], len: usize, topk_blocks: usize, block: usize) -> (r: Option<Vec<bool>>)
    requires
        0 < block,
        scores@.len() + block - 1 <= usize::MAX,
        topk_in_range(
            block_count(scores@.len() as int, block as int),
            block_budget(scores@.len() as int, topk_blocks as int, block as int),
        ),
    ensures
        r is Some <==> blocks_settle(scores@, len as int, topk_blocks as int, block as int),
        r matches Some(v) ==> v@ == candidate_row(scores@, len as int, topk_blocks as int, block as int),
{
    let width: usize = scores.len();
    let marks: Vec<u32> = score_blocks(scores, len, block);
    let nb: usize = marks.len();
    let budget: usize = if topk_blocks < nb { topk_blocks } else { nb };
    let picks: Vec<usize> = match topk_set_if_settled(marks.as_slice(), budget) {
        Some(v) => v,
        None => {
            return None;
        },
    };
    proof {
        lemma_topk_picks_are_top(marks@, budget as int);
    }
    let mut keep: Vec<bool> = filled(false, width);
    let count: usize = picks.len();
    let mut p: usize = 0;
    while p < count
        invariant
            0 < block,
            width == scores@.len(),
            width + block - 1 <= usize::MAX,
            marks@ == block_scores(scores@, len as int, block as int),
            count == picks@.len(),
            p <= count,
            keep@.len() == width,
            forall|j: int| 0 <= j < count ==> (#[trigger] picks@[j]) < marks@.len(),
            forall|i: int|
                0 <= i < width ==> (#[trigger] keep@[i] <==> picks@.take(p as int).contains((i / block as int) as usize)
                    && float_gt(marks@[i / block as int], NEG_INFINITY)),
        decreases count - p,
    {
        let b: usize = picks[p];
        proof {
            lemma_block_bounds(b as int, block as int, width as int);
        }
        let ghost before_pick: Seq<bool> = keep@;
        if greater(marks[b], NEG_INFINITY) {
            let from: usize = b * block;
            let next: usize = (b + 1) * block;
            let to: usize = if next < width { next } else { width };
            let mut i: usize = from;
            while i < to
                invariant
                    from <= i <= to <= width,
                    keep@.len() == width,
                    forall|t: int| 0 <= t < width ==> #[trigger] keep@[t] == (before_pick[t] || from <= t < i),
                decreases to - i,
            {
                keep.set(i, true);
                i = i + 1;
            }
        }
        assert forall|i: int| 0 <= i < width implies (#[trigger] keep@[i] <==> picks@.take(p + 1).contains(
            (i / block as int) as usize,
        ) && float_gt(marks@[i / block as int], NEG_INFINITY)) by {
            lemma_block_of(i, b as int, block as int, width as int);
            let d: usize = (i / block as int) as usize;
            let shorter: Seq<usize> = picks@.take(p as int);
            let longer: Seq<usize> = picks@.take(p + 1);
            assert(longer =~= shorter.push(b));
            if shorter.contains(d) {
                let w: int = choose|w: int| 0 <= w < shorter.len() && shorter[w] == d;
                assert(longer[w] == d);
            }
            if d == b {
                assert(longer[p as int] == d);
            }
            if longer.contains(d) && d != b {
                let w: int = choose|w: int| 0 <= w < longer.len() && longer[w] == d;
                assert(shorter[w] == d);
            }
            assert(before_pick[i] <==> shorter.contains(d) && float_gt(marks@[i / block as int], NEG_INFINITY));
        }
        p = p + 1;
    }
    assert(picks@.take(count as int) =~= picks@);
    assert(keep@ =~= candidate_row(scores@, len as int, topk_blocks as int, block as int));
    Some(keep)
}

/// The candidate mask, or `None` where a block selection does not settle.
pub fn candidate_blocks_if_settled(
    logits: &[u32],
    queries: usize,
    width: usize,
    compress_lens: &[usize],
    topk_blocks: usize,
    block: usize,
) -> (r: Option<Vec<bool>>)
    requires
        candidates_in_range(
            logits@.len() as int,
            queries as int,
            width as int,
            compress_lens@,
            topk_blocks as int,
            block as int,
        ),
    ensures
        r is Some <==> all_blocks_settle(
            logits@,
            queries as int,
            width as int,
            compress_lens@,
            topk_blocks as int,
            block as int,
        ),
        r matches Some(v) ==> v@ == candidate_mask(
            logits@,
            queries as int,
            width as int,
            compress_lens@,
            topk_blocks as int,
            block as int,
        ),
{
    let mut keep: Vec<bool> = Vec::new();
    let total: usize = logits.len();
    let ghost rows = |q: int|
        candidate_row(row(logits@, q, width as int), compress_lens@[q] as int, topk_blocks as int, block as int);
    for q in 0..queries
        invariant
            total == logits@.len(),
            candidates_in_range(
                logits@.len() as int,
                queries as int,
                width as int,
                compress_lens@,
                topk_blocks as int,
                block as int,
            ),
            rows == |q: int|
                candidate_row(row(logits@, q, width as int), compress_lens@[q] as int, topk_blocks as int, block as int),
            keep@ == concat_rows(q as nat, rows),
            forall|p: int|
                0 <= p < q ==> #[trigger] blocks_settle(
                    row(logits@, p, width as int),
                    compress_lens@[p] as int,
                    topk_blocks as int,
                    block as int,
                ),
    {
        proof {
            lemma_row_bounds(q as int, queries as int, width as int);
        }
        let scores: &[u32] = slice_subrange(logits, q * width, (q + 1) * width);
        assert(scores@ == row(logits@, q as int, width as int));
        match mark_candidates(scores, compress_lens[q], topk_blocks, block) {
            Some(v) => {
                append(&mut keep, v.as_slice());
            },
            None => {
                assert(!blocks_settle(
                    row(logits@, q as int, width as int),
                    compress_lens@[q as int] as int,
                    topk_blocks as int,
                    block as int,
                ));
                return None;
            },
        }
    }
    Some(keep)
}

/// The first level of the two-level top-k. `logits` is `[queries][width]` with
/// unreachable positions at negative infinity; the mask that is returned is
/// `[queries][width]`.
pub fn select_candidate_blocks(
    logits: &[u32],
    queries: usize,
    width: usize,
    compress_lens: &[usize],
    topk_blocks: usize,
    block: usize,
) -> (r: Vec<bool>)
    requires
        candidates_in_range(
            logits@.len() as int,
            queries as int,
            width as int,
            compress_lens@,
            topk_blocks as int,
            block as int,
        ),
        all_blocks_settle(
            logits@,
            queries as int,
            width as int,
            compress_lens@,
            topk_blocks as int,
            block as int,
        ),
    ensures
        r@ == candidate_mask(
            logits@,
            queries as int,
            width as int,
            compress_lens@,
            topk_blocks as int,
            block as int,
        ),
        r@.len() == queries * width,
{
    proof {
        let rows = |q: int|
            candidate_row(row(logits@, q, width as int), compress_lens@[q] as int, topk_blocks as int, block as int);
        assert forall|q: int| 0 <= q < queries implies (#[trigger] rows(q)).len() == width by {
            lemma_row_bounds(q, queries as int, width as int);
        }
        lemma_concat_rows_len(queries as nat, width as int, rows);
    }
    candidate_blocks_if_settled(logits, queries, width, compress_lens, topk_blocks, block).unwrap()
}

proof fn lemma_largest_bound(s: Seq<u32>)
    requires
        forall|i: int| 0 <= i < s.len() ==> (#[trigger] s[i]) != INFINITY,
    ensures
        !is_nan(largest(s)),
        rank(largest(s)) < rank(INFINITY),
    decreases s.len(),
{
    if s.len() > 0 {
        assert forall|i: int| 0 <= i < s.drop_last().len() implies (#[trigger] s.drop_last()[i]) != INFINITY by {
            assert(s.drop_last()[i] == s[i]);
        }
        lemma_largest_bound(s.drop_last());
        assert(s.last() == s[s.len() - 1]);
    }
}

/// The block that holds a query's newest position is always a candidate, as
/// long as no score is infinite.
pub proof fn lemma_newest_block_is_kept(scores: Seq<u32>, len: int, topk_blocks: int, block: int, i: int)
    requires
        0 < block,
        scores.len() + block - 1 <= usize::MAX,
        topk_in_range(
            block_count(scores.len() as int, block),
            block_budget(scores.len() as int, topk_blocks, block),
        ),
        blocks_settle(scores, len, topk_blocks, block),
        forall|j: int| 0 <= j < scores.len() ==> (#[trigger] scores[j]) != INFINITY,
        0 < len <= scores.len(),
        0 <= i < scores.len(),
        i / block == (len - 1) / block,
    ensures
        candidate_row(scores, len, topk_blocks, block)[i],
{
    let width: int = scores.len() as int;
    let marks: Seq<u32> = block_scores(scores, len, block);
    let budget: int = block_budget(width, topk_blocks, block);
    let picks: Seq<usize> = picked_blocks(scores, len, topk_blocks, block);
    let newest: int = (len - 1) / block;
    lemma_block_of(len - 1, newest, block, width);
    lemma_topk_picks_are_top(marks, budget);
    assert(marks[newest] == INFINITY);
    if !picks.contains(newest as usize) {
        let other: int = picks[0] as int;
        assert(picks.contains(picks[0]));
        assert(other != newest);
        lemma_block_bounds(other, block, width);
        let part: Seq<u32> = scores.subrange(other * block, block_end(other, block, width));
        assert forall|j: int| 0 <= j < part.len() implies (#[trigger] part[j]) != INFINITY by {
            assert(part[j] == scores[other * block + j]);
        }
        lemma_largest_bound(part);
        lemma_before_is_rank_order(marks[newest], marks[other]);
        assert(before(marks[newest], marks[other]));
        assert(!before(marks[newest], marks[picks[0] as int]));
    }
    lemma_before_is_rank_order(INFINITY, NEG_INFINITY);
}

proof fn lemma_largest_is_number(s: Seq<u32>)
    ensures
        !is_nan(largest(s)),
    decreases s.len(),
{
    if s.len() > 0 {
        lemma_largest_is_number(s.drop_last());
    }
}

/// No dropped block scores higher than a kept one; so, but for the newest
/// block, which is kept for its place, none has a larger maximum either.
pub proof fn lemma_kept_blocks_are_top(scores: Seq<u32>, len: int, topk_blocks: int, block: int, kept: int, dropped: int)
    requires
        0 < block,
        scores.len() + block - 1 <= usize::MAX,
        topk_in_range(
            block_count(scores.len() as int, block),
            block_budget(scores.len() as int, topk_blocks, block),
        ),
        blocks_settle(scores, len, topk_blocks, block),
        0 <= kept < scores.len(),
        0 <= dropped < scores.len(),
        candidate_row(scores, len, topk_blocks, block)[kept],
        !candidate_row(scores, len, topk_blocks, block)[dropped],
    ensures
        ({
            let width: int = scores.len() as int;
            let marks: Seq<u32> = block_scores(scores, len, block);
            let a: int = kept / block;
            let b: int = dropped / block;
            &&& !float_gt(marks[b], marks[a])
            &&& !is_newest_block(a, block, len) ==> !float_gt(
                largest(scores.subrange(b * block, block_end(b, block, width))),
                largest(scores.subrange(a * block, block_end(a, block, width))),
            )
        }),
{
    let width: int = scores.len() as int;
    let marks: Seq<u32> = block_scores(scores, len, block);
    let picks: Seq<usize> = picked_blocks(scores, len, topk_blocks, block);
    let a: int = kept / block;
    let b: int = dropped / block;
    lemma_block_of(kept, a, block, width);
    lemma_block_of(dropped, b, block, width);
    lemma_topk_picks_are_top(marks, block_budget(width, topk_blocks, block));
    let of_a: u32 = largest(scores.subrange(a * block, block_end(a, block, width)));
    let of_b: u32 = largest(scores.subrange(b * block, block_end(b, block, width)));
    lemma_largest_is_number(scores.subrange(a * block, block_end(a, block, width)));
    lemma_largest_is_number(scores.subrange(b * block, block_end(b, block, width)));
    let i: int = choose|i: int| 0 <= i < picks.len() && picks[i] == a as usize;
    assert(!picks.contains(b as usize) ==> !before(marks[b], marks[picks[i] as int]));
    lemma_before_is_rank_order(marks[b], marks[a]);
    lemma_before_is_rank_order(marks[b], NEG_INFINITY);
    lemma_before_is_rank_order(of_b, of_a);
}

/// The blocks of a row that are kept.
pub open spec fn kept_blocks(scores: Seq<u32>, len: int, topk_blocks: int, block: int) -> Set<int> {
    Set::new(
        |b: int|
            0 <= b < block_count(scores.len() as int, block) && candidate_row(scores, len, topk_blocks, block)[b
                * block],
    )
}

/// No more blocks are kept than are looked for, and a position is a candidate
/// where its block is one of them.
pub proof fn lemma_kept_blocks_within_budget(scores: Seq<u32>, len: int, topk_blocks: int, block: int)
    requires
        0 < block,
        scores.len() + block - 1 <= usize::MAX,
        topk_in_range(
            block_count(scores.len() as int, block),
            block_budget(scores.len() as int, topk_blocks, block),
        ),
        blocks_settle(scores, len, topk_blocks, block),
    ensures
        kept_blocks(scores, len, topk_blocks, block).finite(),
        kept_blocks(scores, len, topk_blocks, block).len() <= block_budget(scores.len() as int, topk_blocks, block)
            <= topk_blocks,
        forall|i: int|
            0 <= i < scores.len() ==> #[trigger] candidate_row(scores, len, topk_blocks, block)[i] == kept_blocks(
                scores,
                len,
                topk_blocks,
                block,
            ).contains(i / block),
{
    let width: int = scores.len() as int;
    let picks: Seq<usize> = picked_blocks(scores, len, topk_blocks, block);
    let wide: Seq<int> = picks.map_values(|x: usize| x as int);
    let kept: Set<int> = kept_blocks(scores, len, topk_blocks, block);
    let mask: Seq<bool> = candidate_row(scores, len, topk_blocks, block);
    lemma_topk_picks_are_top(block_scores(scores, len, block), block_budget(width, topk_blocks, block));
    assert forall|b: int| kept.contains(b) implies wide.to_set().contains(b) by {
        lemma_block_bounds(b, block, width);
        lemma_block_of(b * block, b, block, width);
        assert(mask[b * block]);
        let i: int = choose|i: int| 0 <= i < picks.len() && picks[i] == b as usize;
        assert(wide[i] == b);
    }
    wide.lemma_cardinality_of_set();
    vstd::set_lib::lemma_len_subset(kept, wide.to_set());
    assert forall|i: int| 0 <= i < scores.len() implies #[trigger] mask[i] == kept.contains(i / block) by {
        let b: int = i / block;
        lemma_block_of(i, b, block, width);
        lemma_block_bounds(b, block, width);
        lemma_block_of(b * block, b, block, width);
    }
}

/// Candidates come in whole blocks.
pub proof fn lemma_candidates_are_whole_blocks(
    scores: Seq<u32>,
    len: int,
    topk_blocks: int,
    block: int,
    i: int,
    j: int,
)
    requires
        0 < block,
        0 <= i < scores.len(),
        0 <= j < scores.len(),
        i / block == j / block,
    ensures
        candidate_row(scores, len, topk_blocks, block)[i] == candidate_row(scores, len, topk_blocks, block)[j],
{
}

/// The largest of floats is one of them, and no other is larger; NaN does not
/// count, and of none at all it is negative infinity.
pub proof fn lemma_largest(s: Seq<u32>)
    ensures
        forall|i: int| 0 <= i < s.len() ==> !float_gt(#[trigger] s[i], largest(s)),
        largest(s) == NEG_INFINITY || s.contains(largest(s)),
        !is_nan(largest(s)),
    decreases s.len(),
{
    if s.len() > 0 {
        let t: Seq<u32> = s.drop_last();
        lemma_largest(t);
        lemma_before_is_rank_order(s.last(), largest(t));
        assert forall|i: int| 0 <= i < s.len() implies !float_gt(#[trigger] s[i], largest(s)) by {
            lemma_before_is_rank_order(s[i], largest(s));
            if i < t.len() {
                assert(t[i] == s[i]);
                lemma_before_is_rank_order(t[i], largest(t));
            }
        }
        assert(s[s.len() - 1] == s.last());
        if t.contains(largest(t)) {
            let k: int = choose|k: int| 0 <= k < t.len() && t[k] == largest(t);
            assert(s[k] == largest(t));
        }
    }
}

/// The blocks of a row cover it without a rest to spare, and block `b` is scored
/// by the positions from `b * block` to the next block or the end: infinity
/// where the newest of `len` positions is one of them, else their largest score.
pub proof fn lemma_block_scores(scores: Seq<u32>, len: int, block: int, b: int)
    requires
        0 < block,
        0 <= len <= scores.len(),
        0 <= b < block_count(scores.len() as int, block),
    ensures
        ({
            let marks: Seq<u32> = block_scores(scores, len, block);
            let from: int = b * block;
            &&& marks.len() * block >= scores.len()
            &&& (marks.len() - 1) * block < scores.len()
            &&& from <= len - 1 < from + block ==> marks[b] == 0x7f80_0000u32
            &&& !(from <= len - 1 < from + block) ==> {
                &&& forall|i: int|
                    from <= i < from + block && i < scores.len() ==> !float_gt(#[trigger] scores[i], marks[b])
                &&& marks[b] == 0xff80_0000u32 || exists|i: int|
                    from <= i < from + block && i < scores.len() && #[trigger] scores[i] == marks[b]
            }
        }),
{
    let width: int = scores.len() as int;
    let marks: Seq<u32> = block_scores(scores, len, block);
    let n: int = block_count(width, block);
    let from: int = b * block;
    let end: int = block_end(b, block, width);
    lemma_block_bounds(b, block, width);
    lemma_block_bounds(n - 1, block, width);
    assert(n * block >= width) by (nonlinear_arith)
        requires
            0 < block,
            n == (width + block - 1) / block,
    ;
    if len > 0 {
        lemma_block_of(len - 1, b, block, width);
    }
    let part: Seq<u32> = scores.subrange(from, end);
    lemma_largest(part);
    if !(from <= len - 1 < from + block) {
        assert(marks[b] == largest(part));
        assert forall|i: int| from <= i < from + block && i < width implies !float_gt(#[trigger] scores[i], marks[b]) by {
            assert(part[i - from] == scores[i]);
        }
        if part.contains(largest(part)) {
            let k: int = choose|k: int| 0 <= k < part.len() && part[k] == largest(part);
            assert(scores[from + k] == marks[b]);
        }
    }
}

/// A block with a score above negative infinity is dropped only where as many
/// blocks are kept as may be.
pub proof fn lemma_budget_is_used(scores: Seq<u32>, len: int, topk_blocks: int, block: int, dropped: int)
    requires
        0 < block,
        scores.len() + block - 1 <= usize::MAX,
        topk_in_range(
            block_count(scores.len() as int, block),
            block_budget(scores.len() as int, topk_blocks, block),
        ),
        blocks_settle(scores, len, topk_blocks, block),
        0 <= dropped < scores.len(),
        !candidate_row(scores, len, topk_blocks, block)[dropped],
        float_gt(block_scores(scores, len, block)[dropped / block], NEG_INFINITY),
    ensures
        kept_blocks(scores, len, topk_blocks, block).len() == topk_blocks,
{
    let width: int = scores.len() as int;
    let marks: Seq<u32> = block_scores(scores, len, block);
    let budget: int = block_budget(width, topk_blocks, block);
    let picks: Seq<usize> = picked_blocks(scores, len, topk_blocks, block);
    let wide: Seq<int> = picks.map_values(|x: usize| x as int);
    let kept: Set<int> = kept_blocks(scores, len, topk_blocks, block);
    let mask: Seq<bool> = candidate_row(scores, len, topk_blocks, block);
    let d: int = dropped / block;
    lemma_block_of(dropped, d, block, width);
    lemma_topk_picks_are_top(marks, budget);
    assert(!picks.contains(d as usize));
    lemma_before_is_rank_order(marks[d], NEG_INFINITY);
    assert forall|b: int| wide.to_set().contains(b) == kept.contains(b) by {
        if wide.to_set().contains(b) {
            let i: int = choose|i: int| 0 <= i < wide.len() && wide[i] == b;
            assert(picks[i] == b as usize);
            assert(!before(marks[d], marks[picks[i] as int]));
            lemma_before_is_rank_order(marks[d], marks[b]);
            lemma_before_is_rank_order(marks[b], NEG_INFINITY);
            lemma_block_bounds(b, block, width);
            lemma_block_of(b * block, b, block, width);
            if is_newest_block(b, block, len) {
                assert(marks[b] == INFINITY);
            } else {
                lemma_largest_is_number(scores.subrange(b * block, block_end(b, block, width)));
            }
            assert(picks.contains(b as usize));
            assert(mask[b * block]);
        }
        if kept.contains(b) {
            lemma_block_bounds(b, block, width);
            lemma_block_of(b * block, b, block, width);
            assert(mask[b * block]);
            let i: int = choose|i: int| 0 <= i < picks.len() && picks[i] == b as usize;
            assert(wide[i] == b);
        }
    }
    assert(wide.to_set() =~= kept);
    assert(wide.no_duplicates()) by {
        assert forall|i: int, j: int| 0 <= i < wide.len() && 0 <= j < wide.len() && i != j implies wide[i] != wide[j] by {
            assert(picks[i] != picks[j]);
        }
    }
    wide.unique_seq_to_set();
    if budget < topk_blocks {
        let all: Set<int> = vstd::set_lib::set_int_range(0, block_count(width, block));
        vstd::set_lib::lemma_int_range(0, block_count(width, block));
        assert forall|b: int| kept.contains(b) implies all.contains(b) by {}
        assert(all.contains(d) && !kept.contains(d));
        assert(kept.subset_of(all.remove(d)));
        vstd::set_lib::lemma_len_subset(kept, all.remove(d));
    }
}

} // verus!
