//! The second level of the top-k: which compressed positions each query of a
//! call attends to.

use crate::float_bits::{before, lemma_before_is_rank_order, NEG_INFINITY};
use crate::rows::{append, concat_rows, filled, lemma_concat_rows_len, lemma_concat_rows_row, lemma_row_bounds, row};
use crate::select::{
    all_blocks_settle, candidate_blocks_if_settled, candidate_mask, candidate_row, candidates_in_range,
};
use crate::topk::{lemma_topk_picks_are_top, topk_in_range, topk_picks, topk_set_if_settled, topk_settles};
use vstd::arithmetic::div_mod::{lemma_div_is_ordered, lemma_div_pos_is_pos, lemma_fundamental_div_mod};
use vstd::prelude::*;
use vstd::slice::slice_subrange;

verus! {

/// One call of the indexer, as far as the selection depends on it.
#[derive(Clone, Copy)]
pub struct IndexRequest {
    /// queries of this call
    pub m: usize,
    pub start_pos: usize,
    /// added to each selected position: the rows that come before the compressed ones
    pub offset: usize,
    pub ratio: usize,
    pub index_topk: usize,
    pub cand_topk_blocks: usize,
    pub cand_block: usize,
    pub is_candidate_source: bool,
    pub uses_candidates: bool,
}

/// What a selection publishes.
pub struct IndexSelection {
    /// `[queries][topk]`, offset, -1 where unreachable
    pub idx: Vec<i32>,
    pub topk: usize,
    /// the candidate mask `[queries][width]`, of a candidate source
    pub candidates: Option<Vec<bool>>,
}

impl IndexRequest {
    /// How many compressed positions exist at the end of the call.
    pub open spec fn width(&self) -> int {
        (self.start_pos + self.m) / self.ratio as int
    }

    /// How many positions each query selects.
    pub open spec fn topk(&self) -> int {
        if (self.index_topk as int) < self.width() {
            self.index_topk as int
        } else {
            self.width()
        }
    }

    /// How many compressed positions query `t` may look at: on prefill those
    /// that are complete when it is reached, on decode all.
    pub open spec fn reach(&self, t: int) -> int {
        if self.start_pos == 0 {
            (t + 1) / self.ratio as int
        } else {
            self.width()
        }
    }

    /// [`IndexRequest::reach`] of all queries.
    pub open spec fn reaches(&self) -> Seq<usize> {
        Seq::new(self.m as nat, |t: int| self.reach(t) as usize)
    }

    /// Query `t`'s scores, with what it cannot reach at negative infinity.
    pub open spec fn reachable(&self, score: Seq<u32>, t: int) -> Seq<u32> {
        Seq::new(
            self.width() as nat,
            |p: int|
                if self.start_pos == 0 && p >= self.reach(t) {
                    NEG_INFINITY
                } else {
                    row(score, t, self.width())[p]
                },
        )
    }

    /// The whole table of [`IndexRequest::reachable`].
    pub open spec fn reachable_table(&self, score: Seq<u32>) -> Seq<u32> {
        concat_rows(self.m as nat, |t: int| self.reachable(score, t))
    }

    /// The scores that query `t` selects among: outside the candidates of an
    /// earlier layer they are at negative infinity.
    pub open spec fn narrowed(&self, score: Seq<u32>, candidates: Seq<bool>, t: int) -> Seq<u32> {
        if !self.is_candidate_source && self.uses_candidates {
            Seq::new(
                self.width() as nat,
                |p: int|
                    if row(candidates, t, self.width())[p] {
                        self.reachable(score, t)[p]
                    } else {
                        NEG_INFINITY
                    },
            )
        } else {
            self.reachable(score, t)
        }
    }

    /// What query `t` selects, in ascending order; -1 in place of a position
    /// that it cannot reach.
    pub open spec fn index_row(&self, score: Seq<u32>, candidates: Seq<bool>, t: int) -> Seq<i32> {
        marked_positions(
            ascending(topk_picks(self.narrowed(score, candidates, t), self.topk()), self.width()),
            self.reach(t),
            self.offset as int,
        )
    }

    /// The selections of all queries.
    pub open spec fn index_table(&self, score: Seq<u32>, candidates: Seq<bool>) -> Seq<i32> {
        concat_rows(self.m as nat, |t: int| self.index_row(score, candidates, t))
    }

    /// The candidate mask that a candidate source publishes.
    pub open spec fn published_candidates(&self, score: Seq<u32>) -> Seq<bool> {
        candidate_mask(
            self.reachable_table(score),
            self.m as int,
            self.width(),
            self.reaches(),
            self.cand_topk_blocks as int,
            self.cand_block as int,
        )
    }

    /// Every selection of the call settles.
    pub open spec fn settles(&self, score: Seq<u32>, candidates: Seq<bool>) -> bool {
        &&& self.is_candidate_source ==> all_blocks_settle(
            self.reachable_table(score),
            self.m as int,
            self.width(),
            self.reaches(),
            self.cand_topk_blocks as int,
            self.cand_block as int,
        )
        &&& forall|t: int| 0 <= t < self.m ==> topk_settles(#[trigger] self.narrowed(score, candidates, t), self.topk())
    }

    /// The tables and counts that the selection takes.
    pub open spec fn in_range(&self, score_len: int, candidates_len: int) -> bool {
        &&& self.ratio > 0
        &&& self.start_pos + self.m <= usize::MAX
        &&& self.offset + self.width() <= usize::MAX
        &&& score_len == self.m * self.width()
        &&& self.m > 0 ==> topk_in_range(self.width(), self.topk())
        &&& self.is_candidate_source ==> candidates_in_range(
            score_len,
            self.m as int,
            self.width(),
            self.reaches(),
            self.cand_topk_blocks as int,
            self.cand_block as int,
        )
        &&& !self.is_candidate_source && self.uses_candidates ==> self.m * self.width() <= candidates_len
    }
}

/// The elements of `picks` below `n`, in ascending order.
pub open spec fn ascending(picks: Seq<usize>, n: int) -> Seq<usize>
    decreases n,
{
    if n <= 0 {
        Seq::empty()
    } else if picks.contains((n - 1) as usize) {
        ascending(picks, n - 1).push((n - 1) as usize)
    } else {
        ascending(picks, n - 1)
    }
}

/// Positions with the offset added, and -1 for those from `reach` on.
pub open spec fn marked_positions(positions: Seq<usize>, reach: int, offset: int) -> Seq<i32> {
    positions.map_values(
        |i: usize|
            if i < reach {
                (i + offset) as i32
            } else {
                -1i32
            },
    )
}

proof fn lemma_ascending(picks: Seq<usize>, n: int)
    requires
        0 <= n <= usize::MAX,
        picks.no_duplicates(),
    ensures
        ascending(picks, n).no_duplicates(),
        forall|x: usize| #[trigger] ascending(picks, n).contains(x) <==> picks.contains(x) && x < n,
    decreases n,
{
    if n > 0 {
        let shorter: Seq<usize> = ascending(picks, n - 1);
        let last: usize = (n - 1) as usize;
        lemma_ascending(picks, n - 1);
        let s: Seq<usize> = ascending(picks, n);
        assert forall|x: usize| #[trigger] s.contains(x) <==> picks.contains(x) && x < n by {
            assert(shorter.contains(x) <==> picks.contains(x) && x < n - 1);
            if shorter.contains(x) {
                let w: int = choose|w: int| 0 <= w < shorter.len() && shorter[w] == x;
                assert(s[w] == x);
            }
            if x == last && picks.contains(x) {
                assert(s[s.len() - 1] == x);
            }
            if s.contains(x) && !shorter.contains(x) {
                let w: int = choose|w: int| 0 <= w < s.len() && s[w] == x;
                if w < shorter.len() {
                    assert(shorter[w] == x);
                }
            }
        }
        if picks.contains(last) {
            assert(!shorter.contains(last));
            assert forall|a: int, b: int| 0 <= a < s.len() && 0 <= b < s.len() && a != b implies s[a] != s[b] by {
                if a == s.len() - 1 {
                    assert(shorter[b] == s[b]);
                    assert(shorter.contains(s[b]));
                } else if b == s.len() - 1 {
                    assert(shorter[a] == s[a]);
                    assert(shorter.contains(s[a]));
                } else {
                    assert(shorter[a] == s[a] && shorter[b] == s[b]);
                }
            }
        }
    }
}

/// Sorting keeps the number of picks.
proof fn lemma_ascending_len(picks: Seq<usize>, n: int)
    requires
        0 <= n <= usize::MAX,
        picks.no_duplicates(),
        forall|i: int| 0 <= i < picks.len() ==> (#[trigger] picks[i]) < n,
    ensures
        ascending(picks, n).len() == picks.len(),
{
    lemma_ascending(picks, n);
    let s: Seq<usize> = ascending(picks, n);
    s.unique_seq_to_set();
    picks.unique_seq_to_set();
    assert(s.to_set() =~= picks.to_set()) by {
        assert forall|x: usize| s.to_set().contains(x) <==> picks.to_set().contains(x) by {
            if picks.contains(x) {
                let w: int = choose|w: int| 0 <= w < picks.len() && picks[w] == x;
                assert(picks[w] < n);
            }
        }
    }
}

/// Each query's row of the index table has `topk` entries.
pub proof fn lemma_index_row_len(req: IndexRequest, score: Seq<u32>, candidates: Seq<bool>, t: int)
    requires
        req.in_range(score.len() as int, candidates.len() as int),
        req.settles(score, candidates),
        0 <= t < req.m,
    ensures
        req.index_row(score, candidates, t).len() == req.topk(),
{
    let scores: Seq<u32> = req.narrowed(score, candidates, t);
    assert(topk_settles(scores, req.topk()));
    lemma_topk_picks_are_top(scores, req.topk());
    lemma_ascending_len(topk_picks(scores, req.topk()), req.width());
}

/// The index table has `topk` entries per query.
pub proof fn lemma_index_table_len(req: IndexRequest, score: Seq<u32>, candidates: Seq<bool>)
    requires
        req.in_range(score.len() as int, candidates.len() as int),
        req.settles(score, candidates),
    ensures
        req.index_table(score, candidates).len() == req.m * req.topk(),
{
    let f = |t: int| req.index_row(score, candidates, t);
    assert forall|t: int| 0 <= t < req.m implies (#[trigger] f(t)).len() == req.topk() by {
        lemma_index_row_len(req, score, candidates, t);
    }
    lemma_concat_rows_len(req.m as nat, req.topk(), f);
}

/// No query selects a position that it cannot reach, nor one beyond the
/// compressed positions that exist: every entry of its row is -1, or the offset
/// plus a reachable position that its top-k picked.
pub proof fn lemma_selected_positions_are_reachable(
    req: IndexRequest,
    score: Seq<u32>,
    candidates: Seq<bool>,
    t: int,
    j: int,
)
    requires
        req.in_range(score.len() as int, candidates.len() as int),
        req.settles(score, candidates),
        req.offset + req.width() <= i32::MAX,
        0 <= t < req.m,
        0 <= j < req.topk(),
    ensures
        ({
            let entry: i32 = req.index_row(score, candidates, t)[j];
            entry == -1 || {
                &&& req.offset <= entry < req.offset + req.reach(t)
                &&& entry - req.offset < req.width()
                &&& topk_picks(req.narrowed(score, candidates, t), req.topk()).contains((entry - req.offset) as usize)
            }
        }),
{
    lemma_index_row_len(req, score, candidates, t);
    let scores: Seq<u32> = req.narrowed(score, candidates, t);
    let picks: Seq<usize> = topk_picks(scores, req.topk());
    lemma_topk_picks_are_top(scores, req.topk());
    lemma_ascending(picks, req.width());
    let sorted: Seq<usize> = ascending(picks, req.width());
    let p: usize = sorted[j];
    assert(sorted.contains(p));
    let entry: i32 = req.index_row(score, candidates, t)[j];
    assert(entry == if p < req.reach(t) { (p + req.offset) as i32 } else { -1i32 });
    if p < req.reach(t) {
        assert(entry - req.offset == p);
    }
}

proof fn lemma_reach_in_width(req: IndexRequest, t: int)
    requires
        req.ratio > 0,
        0 <= t < req.m,
    ensures
        0 <= req.reach(t) <= req.width(),
{
    lemma_div_pos_is_pos(t + 1, req.ratio as int);
    lemma_div_is_ordered(0, req.start_pos + req.m, req.ratio as int);
    lemma_div_is_ordered(t + 1, req.start_pos + req.m, req.ratio as int);
}

/// The sorted picks below `n` come first among the sorted picks below `w`.
proof fn lemma_ascending_prefix(picks: Seq<usize>, n: int, w: int)
    requires
        0 <= n <= w <= usize::MAX,
    ensures
        ascending(picks, n).len() <= ascending(picks, w).len(),
        forall|j: int|
            0 <= j < ascending(picks, n).len() ==> #[trigger] ascending(picks, w)[j] == ascending(picks, n)[j],
        forall|j: int| 0 <= j < ascending(picks, w).len() ==> (#[trigger] ascending(picks, w)[j]) < w,
        forall|j: int|
            0 <= j < ascending(picks, w).len() ==> (#[trigger] ascending(picks, w)[j] < n <==> j < ascending(
                picks,
                n,
            ).len()),
        forall|i: int, j: int|
            0 <= i < j < ascending(picks, w).len() ==> #[trigger] ascending(picks, w)[i] < #[trigger] ascending(
                picks,
                w,
            )[j],
    decreases w,
{
    if w > 0 {
        let shorter: Seq<usize> = ascending(picks, w - 1);
        if n < w {
            lemma_ascending_prefix(picks, n, w - 1);
        } else {
            lemma_ascending_prefix(picks, w - 1, w - 1);
        }
        assert forall|j: int| 0 <= j < shorter.len() implies #[trigger] ascending(picks, w)[j] == shorter[j]
            && shorter[j] < w - 1 by {}
    }
}

/// There are no more than `n` picks below `n`, and as many only if all places
/// below `n` are picked; sorted they are then those places in order.
proof fn lemma_ascending_full(picks: Seq<usize>, n: int)
    requires
        0 <= n <= usize::MAX,
    ensures
        ascending(picks, n).len() <= n,
        ascending(picks, n).len() == n <==> forall|p: int| 0 <= p < n ==> picks.contains(#[trigger] (p as usize)),
        ascending(picks, n).len() == n ==> forall|j: int| 0 <= j < n ==> #[trigger] ascending(picks, n)[j] == j,
    decreases n,
{
    if n > 0 {
        lemma_ascending_full(picks, n - 1);
        let last: usize = (n - 1) as usize;
        if ascending(picks, n).len() == n {
            assert(picks.contains(last));
        }
        if forall|p: int| 0 <= p < n ==> picks.contains(#[trigger] (p as usize)) {
            assert(picks.contains((n - 1) as usize));
        }
    }
}

/// What a query's row holds of the positions that it reaches: those that its
/// top-k picked.
proof fn lemma_row_holds_picks(req: IndexRequest, score: Seq<u32>, candidates: Seq<bool>, t: int, p: int)
    requires
        req.in_range(score.len() as int, candidates.len() as int),
        req.settles(score, candidates),
        req.offset + req.width() <= i32::MAX,
        0 <= t < req.m,
        0 <= p < req.reach(t),
    ensures
        req.index_row(score, candidates, t).contains((p + req.offset) as i32) <==> topk_picks(
            req.narrowed(score, candidates, t),
            req.topk(),
        ).contains(p as usize),
{
    let scores: Seq<u32> = req.narrowed(score, candidates, t);
    let picks: Seq<usize> = topk_picks(scores, req.topk());
    let sorted: Seq<usize> = ascending(picks, req.width());
    let line: Seq<i32> = req.index_row(score, candidates, t);
    lemma_reach_in_width(req, t);
    lemma_topk_picks_are_top(scores, req.topk());
    lemma_ascending(picks, req.width());
    let x: usize = p as usize;
    let entry: i32 = (p + req.offset) as i32;
    if picks.contains(x) {
        assert(sorted.contains(x));
        let w: int = choose|w: int| 0 <= w < sorted.len() && sorted[w] == x;
        assert(line[w] == entry);
    }
    if line.contains(entry) {
        let w: int = choose|w: int| 0 <= w < line.len() && line[w] == entry;
        assert(sorted.contains(sorted[w]));
        assert(sorted[w] == x);
    }
}

/// A position that a query reaches and leaves out never scores higher than one
/// that it takes.
pub proof fn lemma_taken_scores_are_top(
    req: IndexRequest,
    score: Seq<u32>,
    candidates: Seq<bool>,
    t: int,
    taken: int,
    left: int,
)
    requires
        req.in_range(score.len() as int, candidates.len() as int),
        req.settles(score, candidates),
        req.offset + req.width() <= i32::MAX,
        0 <= t < req.m,
        0 <= taken < req.reach(t),
        0 <= left < req.reach(t),
        req.index_row(score, candidates, t).contains((taken + req.offset) as i32),
        !req.index_row(score, candidates, t).contains((left + req.offset) as i32),
    ensures
        !before(req.narrowed(score, candidates, t)[left], req.narrowed(score, candidates, t)[taken]),
{
    let scores: Seq<u32> = req.narrowed(score, candidates, t);
    let picks: Seq<usize> = topk_picks(scores, req.topk());
    lemma_reach_in_width(req, t);
    lemma_row_holds_picks(req, score, candidates, t, taken);
    lemma_row_holds_picks(req, score, candidates, t, left);
    lemma_topk_picks_are_top(scores, req.topk());
    let i: int = choose|i: int| 0 <= i < picks.len() && picks[i] == taken as usize;
    assert(!before(scores[left], scores[picks[i] as int]));
}

/// A query's row is ascending, with its -1 entries at the end. Where no score
/// that it reaches is negative infinity, it takes as many positions as it
/// reaches, up to the top-k.
pub proof fn lemma_index_row_is_ascending(req: IndexRequest, score: Seq<u32>, candidates: Seq<bool>, t: int)
    requires
        req.in_range(score.len() as int, candidates.len() as int),
        req.settles(score, candidates),
        req.offset + req.width() <= i32::MAX,
        0 <= t < req.m,
    ensures
        ({
            let line: Seq<i32> = req.index_row(score, candidates, t);
            let taken: int = if req.topk() < req.reach(t) {
                req.topk()
            } else {
                req.reach(t)
            };
            &&& line.len() == req.topk()
            &&& forall|i: int, j: int|
                0 <= i < j < line.len() && line[j] != -1 ==> -1 < #[trigger] line[i] < #[trigger] line[j]
            &&& (forall|p: int|
                0 <= p < req.reach(t) ==> (#[trigger] req.narrowed(score, candidates, t)[p]) != NEG_INFINITY)
                ==> forall|j: int|
                0 <= j < line.len() ==> if j < taken {
                    req.offset <= #[trigger] line[j] < req.offset + req.reach(t)
                } else {
                    line[j] == -1
                }
        }),
{
    let scores: Seq<u32> = req.narrowed(score, candidates, t);
    let picks: Seq<usize> = topk_picks(scores, req.topk());
    let reach: int = req.reach(t);
    let width: int = req.width();
    let sorted: Seq<usize> = ascending(picks, width);
    let line: Seq<i32> = req.index_row(score, candidates, t);
    lemma_reach_in_width(req, t);
    lemma_index_row_len(req, score, candidates, t);
    lemma_topk_picks_are_top(scores, req.topk());
    lemma_ascending_prefix(picks, reach, width);
    lemma_ascending_full(picks, reach);
    assert forall|j: int| 0 <= j < line.len() implies #[trigger] line[j] == if sorted[j] < reach {
        (sorted[j] + req.offset) as i32
    } else {
        -1i32
    } by {}
    assert forall|i: int, j: int| 0 <= i < j < line.len() && line[j] != -1 implies -1 < #[trigger] line[i]
        < #[trigger] line[j] by {
        assert(sorted[i] < sorted[j]);
    }
    if forall|p: int| 0 <= p < reach ==> (#[trigger] scores[p]) != NEG_INFINITY {
        if exists|p: int| 0 <= p < reach && !picks.contains(#[trigger] (p as usize)) {
            let p: int = choose|p: int| 0 <= p < reach && !picks.contains(#[trigger] (p as usize));
            assert forall|i: int| 0 <= i < picks.len() implies (#[trigger] picks[i]) < reach by {
                let q: int = picks[i] as int;
                if q >= reach {
                    assert(scores[q] == NEG_INFINITY);
                    assert(scores[p] != NEG_INFINITY);
                    lemma_before_is_rank_order(scores[p], NEG_INFINITY);
                    assert(!before(scores[p], scores[picks[i] as int]));
                }
            }
            lemma_ascending_len(picks, reach);
        }
    }
}

/// Where the top-k takes as many positions as there are, a query takes every
/// position that it reaches, in order, whatever the scores and the candidates.
pub proof fn lemma_wide_topk_takes_all(req: IndexRequest, score: Seq<u32>, candidates: Seq<bool>, t: int)
    requires
        req.in_range(score.len() as int, candidates.len() as int),
        req.settles(score, candidates),
        req.index_topk >= req.width(),
        0 <= t < req.m,
    ensures
        req.index_row(score, candidates, t) == Seq::new(
            req.width() as nat,
            |p: int|
                if p < req.reach(t) {
                    (p + req.offset) as i32
                } else {
                    -1i32
                },
        ),
{
    let scores: Seq<u32> = req.narrowed(score, candidates, t);
    let picks: Seq<usize> = topk_picks(scores, req.topk());
    lemma_topk_picks_are_top(scores, req.topk());
    lemma_ascending_len(picks, req.width());
    lemma_ascending_full(picks, req.width());
    lemma_index_row_len(req, score, candidates, t);
    let line: Seq<i32> = req.index_row(score, candidates, t);
    assert forall|p: int| 0 <= p < req.width() implies #[trigger] line[p] == if p < req.reach(t) {
        (p + req.offset) as i32
    } else {
        -1i32
    } by {
        assert(ascending(picks, req.width())[p] == p);
    }
}

/// No query looks ahead: every token of a compressed position that it reaches
/// is one that it has seen, on prefill its own or an earlier one, on decode one
/// of the sequence so far.
pub proof fn lemma_reach_is_past(req: IndexRequest, t: int, g: int, j: int)
    requires
        req.ratio > 0,
        0 <= t < req.m,
        0 <= g < req.reach(t),
        0 <= j < req.ratio,
    ensures
        g * req.ratio + j < req.start_pos + req.m,
        req.start_pos == 0 ==> g * req.ratio + j <= t,
{
    let ratio: int = req.ratio as int;
    let end: int = if req.start_pos == 0 {
        t + 1
    } else {
        req.start_pos + req.m
    };
    lemma_fundamental_div_mod(end, ratio);
    assert((g + 1) * ratio <= (end / ratio) * ratio) by (nonlinear_arith)
        requires
            g + 1 <= end / ratio,
            ratio > 0,
    ;
    assert((g + 1) * ratio == g * ratio + ratio) by (nonlinear_arith);
    assert((end / ratio) * ratio == ratio * (end / ratio)) by (nonlinear_arith);
}

/// The tables that a call selects among, per query.
fn mask_rows(score: &[u32], req: &IndexRequest, candidates: &[bool], narrow: bool) -> (r: Vec<u32>)
    requires
        req.in_range(score@.len() as int, candidates@.len() as int),
        narrow ==> !req.is_candidate_source && req.uses_candidates,
    ensures
        narrow ==> r@ == concat_rows(req.m as nat, |t: int| req.narrowed(score@, candidates@, t)),
        !narrow ==> r@ == req.reachable_table(score@),
{
    let width: usize = (req.start_pos + req.m) / req.ratio;
    let total: usize = score.len();
    let mut out: Vec<u32> = Vec::new();
    let ghost wide = |t: int| req.reachable(score@, t);
    let ghost thin = |t: int| req.narrowed(score@, candidates@, t);
    for t in 0..req.m
        invariant
            req.in_range(score@.len() as int, candidates@.len() as int),
            narrow ==> !req.is_candidate_source && req.uses_candidates,
            width == req.width(),
            total == score@.len(),
            wide == |t: int| req.reachable(score@, t),
            thin == |t: int| req.narrowed(score@, candidates@, t),
            narrow ==> out@ == concat_rows(t as nat, thin),
            !narrow ==> out@ == concat_rows(t as nat, wide),
    {
        proof {
            lemma_row_bounds(t as int, req.m as int, width as int);
        }
        let reach: usize = if req.start_pos == 0 { (t + 1) / req.ratio } else { width };
        let ghost before_row: Seq<u32> = out@;
        let ghost line: Seq<u32> = if narrow { thin(t as int) } else { wide(t as int) };
        for p in 0..width
            invariant
                req.in_range(score@.len() as int, candidates@.len() as int),
                narrow ==> !req.is_candidate_source && req.uses_candidates,
                width == req.width(),
                total == score@.len(),
                reach == req.reach(t as int),
                0 <= t < req.m,
                0 <= t * width,
                (t + 1) * width == t * width + width,
                (t + 1) * width <= req.m * width,
                line == if narrow {
                    req.narrowed(score@, candidates@, t as int)
                } else {
                    req.reachable(score@, t as int)
                },
                out@ == before_row + line.take(p as int),
        {
            let at: usize = t * width + p;
            assert(row(score@, t as int, width as int)[p as int] == score@[at as int]);
            let kept: bool = if narrow {
                assert(row(candidates@, t as int, width as int)[p as int] == candidates@[at as int]);
                candidates[at]
            } else {
                true
            };
            out.push(if !kept || (req.start_pos == 0 && p >= reach) { NEG_INFINITY } else { score[at] });
            assert(line.take(p + 1) =~= line.take(p as int).push(line[p as int]));
            assert(out@ =~= before_row + line.take(p + 1));
        }
        assert(line.take(width as int) =~= line);
    }
    out
}

fn index_line(scores: &[u32], reach: usize, offset: usize, topk: usize) -> (r: Option<Vec<i32>>)
    requires
        topk_in_range(scores@.len() as int, topk as int),
        offset + scores@.len() <= usize::MAX,
    ensures
        r is Some <==> topk_settles(scores@, topk as int),
        r matches Some(v) ==> v@ == marked_positions(
            ascending(topk_picks(scores@, topk as int), scores@.len() as int),
            reach as int,
            offset as int,
        ),
{
    let width: usize = scores.len();
    let picks: Vec<usize> = match topk_set_if_settled(scores, topk) {
        Some(v) => v,
        None => {
            return None;
        },
    };
    proof {
        lemma_topk_picks_are_top(scores@, topk as int);
    }
    let mut picked: Vec<bool> = filled(false, width);
    for j in 0..topk
        invariant
            topk == picks@.len(),
            picked@.len() == width,
            forall|i: int| 0 <= i < topk ==> (#[trigger] picks@[i]) < width,
            forall|i: int| 0 <= i < width ==> (#[trigger] picked@[i] <==> picks@.take(j as int).contains(i as usize)),
    {
        let ghost shorter: Seq<usize> = picks@.take(j as int);
        let ghost longer: Seq<usize> = picks@.take(j + 1);
        let ghost was: Seq<bool> = picked@;
        picked.set(picks[j], true);
        assert(longer =~= shorter.push(picks@[j as int]));
        assert forall|i: int| 0 <= i < width implies (#[trigger] picked@[i] <==> longer.contains(i as usize)) by {
            let x: usize = i as usize;
            if shorter.contains(x) {
                let w: int = choose|w: int| 0 <= w < shorter.len() && shorter[w] == x;
                assert(longer[w] == x);
            }
            if x == picks@[j as int] {
                assert(longer[j as int] == x);
            } else if longer.contains(x) {
                let w: int = choose|w: int| 0 <= w < longer.len() && longer[w] == x;
                assert(shorter[w] == x);
            }
            assert(was[i] <==> shorter.contains(x));
        }
    }
    assert(picks@.take(topk as int) =~= picks@);
    let mut out: Vec<i32> = Vec::with_capacity(topk);
    for i in 0..width
        invariant
            picked@.len() == width,
            offset + width <= usize::MAX,
            forall|i: int| 0 <= i < width ==> (#[trigger] picked@[i] <==> picks@.contains(i as usize)),
            out@ == marked_positions(ascending(picks@, i as int), reach as int, offset as int),
    {
        if picked[i] {
            out.push(if i < reach { (i + offset) as i32 } else { -1 });
        }
        assert(out@ =~= marked_positions(ascending(picks@, i + 1), reach as int, offset as int));
    }
    Some(out)
}

/// The selection of a call, or `None` where one of its top-k selections does
/// not settle. `score` is `[queries][width]`, `candidates` the mask that an
/// earlier layer published.
pub fn index_selection_if_settled(score: &[u32], req: &IndexRequest, candidates: &[bool]) -> (r: Option<IndexSelection>)
    requires
        req.in_range(score@.len() as int, candidates@.len() as int),
    ensures
        r is Some <==> req.settles(score@, candidates@),
        r matches Some(sel) ==> {
            &&& sel.idx@ == req.index_table(score@, candidates@)
            &&& sel.topk == req.topk()
            &&& sel.candidates is Some <==> req.is_candidate_source
            &&& sel.candidates matches Some(mask) ==> mask@ == req.published_candidates(score@)
        },
{
    let width: usize = (req.start_pos + req.m) / req.ratio;
    let narrow: bool = !req.is_candidate_source && req.uses_candidates;
    let table: Vec<u32> = mask_rows(score, req, candidates, narrow);
    let ghost lines = |t: int| req.narrowed(score@, candidates@, t);
    proof {
        if !narrow {
            crate::rows::lemma_concat_rows_equal(req.m as nat, |t: int| req.reachable(score@, t), lines);
        }
        assert forall|t: int| 0 <= t < req.m implies (#[trigger] lines(t)).len() == width by {}
        lemma_concat_rows_len(req.m as nat, width as int, lines);
    }
    let mut reaches: Vec<usize> = Vec::with_capacity(req.m);
    for t in 0..req.m
        invariant
            req.in_range(score@.len() as int, candidates@.len() as int),
            width == req.width(),
            reaches@ == req.reaches().take(t as int),
    {
        reaches.push(if req.start_pos == 0 { (t + 1) / req.ratio } else { width });
        proof {
            assert((t + 1) / req.ratio as int <= t + 1) by (nonlinear_arith)
                requires
                    req.ratio > 0,
                    t >= 0,
            ;
        }
        assert(reaches@ =~= req.reaches().take(t + 1));
    }
    assert(reaches@ =~= req.reaches());
    let candidates_out: Option<Vec<bool>> = if req.is_candidate_source {
        match candidate_blocks_if_settled(
            table.as_slice(),
            req.m,
            width,
            reaches.as_slice(),
            req.cand_topk_blocks,
            req.cand_block,
        ) {
            Some(mask) => Some(mask),
            None => {
                return None;
            },
        }
    } else {
        None
    };
    let topk: usize = if req.index_topk < width { req.index_topk } else { width };
    let mut idx: Vec<i32> = Vec::new();
    let total: usize = table.len();
    let ghost outs = |t: int| req.index_row(score@, candidates@, t);
    for t in 0..req.m
        invariant
            req.in_range(score@.len() as int, candidates@.len() as int),
            width == req.width(),
            topk == req.topk(),
            reaches@ == req.reaches(),
            lines == |t: int| req.narrowed(score@, candidates@, t),
            outs == |t: int| req.index_row(score@, candidates@, t),
            table@ == concat_rows(req.m as nat, lines),
            total == table@.len() == req.m * width,
            idx@ == concat_rows(t as nat, outs),
            forall|p: int| 0 <= p < t ==> topk_settles(#[trigger] req.narrowed(score@, candidates@, p), topk as int),
    {
        proof {
            assert forall|t: int| 0 <= t < req.m implies (#[trigger] lines(t)).len() == width by {}
            lemma_concat_rows_row(req.m as nat, width as int, lines, t as int);
            lemma_row_bounds(t as int, req.m as int, width as int);
            assert(t * width + width <= total);
        }
        let line: &[u32] = slice_subrange(table.as_slice(), t * width, (t + 1) * width);
        assert(line@ == req.narrowed(score@, candidates@, t as int));
        proof {
            assert((t + 1) / req.ratio as int <= t + 1) by (nonlinear_arith)
                requires
                    req.ratio > 0,
                    t >= 0,
            ;
        }
        match index_line(line, reaches[t], req.offset, topk) {
            Some(v) => {
                append(&mut idx, v.as_slice());
            },
            None => {
                assert(!topk_settles(req.narrowed(score@, candidates@, t as int), topk as int));
                return None;
            },
        }
    }
    Some(IndexSelection { idx, topk, candidates: candidates_out })
}

fn accepts_topk(n: usize, k: usize) -> (r: bool)
    ensures
        r == topk_in_range(n as int, k as int),
{
    if k == 0 || k > n {
        return false;
    }
    match k.checked_mul(64) {
        Some(limit) => n < limit,
        None => false,
    }
}

fn accepts_blocks(score_len: usize, req: &IndexRequest, width: usize) -> (r: bool)
    requires
        req.ratio > 0,
        req.start_pos + req.m <= usize::MAX,
        width == req.width(),
        score_len == req.m * width,
    ensures
        r == candidates_in_range(
            score_len as int,
            req.m as int,
            width as int,
            req.reaches(),
            req.cand_topk_blocks as int,
            req.cand_block as int,
        ),
{
    let block: usize = req.cand_block;
    if block == 0 || block as u64 > 0x7FFF_FFFF_FFFF_FFFF {
        return false;
    }
    match width.checked_add(block - 1) {
        Some(_) => {},
        None => {
            return false;
        },
    }
    if req.m == 0 {
        return true;
    }
    proof {
        let ratio: int = req.ratio as int;
        assert forall|q: int| 0 <= q < req.m implies 0 <= #[trigger] req.reach(q) <= width by {
            if req.start_pos == 0 {
                vstd::arithmetic::div_mod::lemma_div_is_ordered(q + 1, req.m as int, ratio);
                vstd::arithmetic::div_mod::lemma_div_pos_is_pos(q + 1, ratio);
            }
        }
        assert(req.reach(req.m - 1) == width);
        assert(req.reaches()[req.m - 1] == width);
        if width <= i64::MAX {
            assert forall|q: int| 0 <= q < req.m implies (#[trigger] req.reaches()[q]) <= i64::MAX by {
                assert(req.reach(q) <= width);
            }
        }
    }
    if width as u64 > 0x7FFF_FFFF_FFFF_FFFF {
        return false;
    }
    let blocks: usize = (width + (block - 1)) / block;
    let budget: usize = if req.cand_topk_blocks < blocks { req.cand_topk_blocks } else { blocks };
    accepts_topk(blocks, budget)
}

/// Whether [`index_selection_if_settled`] can take a call and selects in it.
pub fn index_ready(score: &[u32], req: &IndexRequest, candidates: &[bool]) -> (r: bool)
    ensures
        r == (req.in_range(score@.len() as int, candidates@.len() as int) && req.settles(score@, candidates@)),
{
    if req.ratio == 0 {
        return false;
    }
    let end: usize = match req.start_pos.checked_add(req.m) {
        Some(end) => end,
        None => {
            return false;
        },
    };
    let width: usize = end / req.ratio;
    match req.offset.checked_add(width) {
        Some(_) => {},
        None => {
            return false;
        },
    }
    let held: usize = score.len();
    let cells: usize = match req.m.checked_mul(width) {
        Some(cells) => cells,
        None => {
            return false;
        },
    };
    if cells != held {
        return false;
    }
    let topk: usize = if req.index_topk < width { req.index_topk } else { width };
    if req.m > 0 && !accepts_topk(width, topk) {
        return false;
    }
    if req.is_candidate_source && !accepts_blocks(held, req, width) {
        return false;
    }
    if !req.is_candidate_source && req.uses_candidates && cells > candidates.len() {
        return false;
    }
    index_selection_if_settled(score, req, candidates).is_some()
}

/// A compressed position is in reach exactly when its last token has been seen:
/// on prefill by the query, on decode by the sequence.
pub proof fn lemma_reach_is_all_of_the_past(req: IndexRequest, t: int, g: int)
    requires
        req.ratio > 0,
        0 <= t < req.m,
        0 <= g,
    ensures
        req.start_pos == 0 ==> (g < req.reach(t) <==> (g + 1) * req.ratio <= t + 1),
        req.start_pos > 0 ==> (g < req.reach(t) <==> (g + 1) * req.ratio <= req.start_pos + req.m),
        g < req.width() <==> (g + 1) * req.ratio <= req.start_pos + req.m,
{
    let ratio: int = req.ratio as int;
    let end: int = req.start_pos + req.m;
    lemma_quotient_is_count(t + 1, ratio, g);
    lemma_quotient_is_count(end, ratio, g);
}

proof fn lemma_quotient_is_count(end: int, ratio: int, g: int)
    requires
        0 <= end,
        0 < ratio,
        0 <= g,
    ensures
        g < end / ratio <==> (g + 1) * ratio <= end,
{
    let q: int = end / ratio;
    lemma_fundamental_div_mod(end, ratio);
    assert(ratio * q == q * ratio) by (nonlinear_arith);
    if g < q {
        assert((g + 1) * ratio <= q * ratio) by (nonlinear_arith)
            requires
                g + 1 <= q,
                0 < ratio,
        ;
    } else {
        assert((g + 1) * ratio >= q * ratio + ratio) by (nonlinear_arith)
            requires
                g + 1 >= q + 1,
                0 < ratio,
        ;
    }
}

/// The scores that a query selects among: its own, but negative infinity from
/// its reach on, and, where it respects the candidates of an earlier layer,
/// outside of them. A candidate source does not.
pub proof fn lemma_narrowed_scores(req: IndexRequest, score: Seq<u32>, candidates: Seq<bool>, t: int, p: int)
    requires
        req.ratio > 0,
        0 <= t < req.m,
        0 <= p < req.width(),
        req.m * req.width() <= score.len(),
        req.m * req.width() <= candidates.len(),
    ensures
        ({
            let at: int = t * req.width() + p;
            let past: bool = p < req.reach(t);
            let respects: bool = req.uses_candidates && !req.is_candidate_source;
            &&& 0 <= at < score.len()
            &&& req.narrowed(score, candidates, t).len() == req.width()
            &&& past && (!respects || candidates[at]) ==> req.narrowed(score, candidates, t)[p] == score[at]
            &&& !past || (respects && !candidates[at]) ==> req.narrowed(score, candidates, t)[p] == 0xff80_0000u32
        }),
{
    lemma_row_bounds(t, req.m as int, req.width());
}

/// The mask that a candidate source publishes is made query by query, of the
/// scores and the positions that the query reaches.
pub proof fn lemma_published_candidates(req: IndexRequest, score: Seq<u32>, t: int)
    requires
        req.ratio > 0,
        req.m * req.width() <= score.len(),
        req.start_pos + req.m <= usize::MAX,
        0 <= t < req.m,
    ensures
        row(req.published_candidates(score), t, req.width()) == candidate_row(
            req.reachable(score, t),
            req.reach(t),
            req.cand_topk_blocks as int,
            req.cand_block as int,
        ),
        req.published_candidates(score).len() == req.m * req.width(),
{
    let width: int = req.width();
    let lines = |q: int| req.reachable(score, q);
    let table: Seq<u32> = req.reachable_table(score);
    let masks = |q: int|
        candidate_row(
            row(table, q, width),
            req.reaches()[q] as int,
            req.cand_topk_blocks as int,
            req.cand_block as int,
        );
    lemma_quotient_is_count(req.start_pos + req.m, req.ratio as int, 0);
    assert(0 <= width <= req.start_pos + req.m) by (nonlinear_arith)
        requires
            width == (req.start_pos + req.m) / req.ratio as int,
            req.ratio > 0,
    ;
    assert(0 <= (t + 1) / req.ratio as int <= t + 1) by (nonlinear_arith)
        requires
            0 <= t,
            req.ratio > 0,
    ;
    assert forall|q: int| 0 <= q < req.m implies (#[trigger] lines(q)).len() == width by {}
    lemma_concat_rows_len(req.m as nat, width, lines);
    assert forall|q: int| 0 <= q < req.m implies (#[trigger] masks(q)).len() == width by {
        lemma_row_bounds(q, req.m as int, width);
    }
    lemma_concat_rows_len(req.m as nat, width, masks);
    lemma_concat_rows_row(req.m as nat, width, lines, t);
    lemma_concat_rows_row(req.m as nat, width, masks, t);
}

} // verus!
