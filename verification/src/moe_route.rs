//! The router's selection: which experts a token goes to.

use crate::float_bits::{is_nan, nan, order_key, rank};
use crate::moe::MoeV41Cfg;
use crate::rows::{filled, lemma_row_bounds, row};
use vstd::prelude::*;
use vstd::slice::slice_subrange;

verus! {

/// Expert `a` is chosen ahead of expert `b`: for its higher score, or at equal
/// scores for its lower number.
pub open spec fn ahead(v: Seq<u32>, a: int, b: int) -> bool {
    rank(v[a]) > rank(v[b]) || (rank(v[a]) == rank(v[b]) && a < b)
}

/// `picks` are the first `k` places of `v` in the order of [`ahead`].
pub open spec fn is_ranking(v: Seq<u32>, k: int, picks: Seq<usize>) -> bool {
    &&& picks.len() == k
    &&& forall|i: int| 0 <= i < k ==> (#[trigger] picks[i]) < v.len()
    &&& forall|i: int, j: int| 0 <= i < j < k ==> ahead(v, #[trigger] picks[i] as int, #[trigger] picks[j] as int)
    &&& forall|i: int, e: int|
        0 <= i < k && 0 <= e < v.len() && !picks.contains(e as usize) ==> #[trigger] ahead(v, picks[i] as int, e)
}

/// A selection of `k` experts: there is one.
pub proof fn lemma_ranking_unique(v: Seq<u32>, k: int, p: Seq<usize>, q: Seq<usize>)
    requires
        is_ranking(v, k, p),
        is_ranking(v, k, q),
        v.len() <= usize::MAX,
    ensures
        p == q,
{
    assert forall|i: int| 0 <= i < k implies p[i] == q[i] by {
        lemma_ranking_agrees(v, k, p, q, i);
    }
    assert(p =~= q);
}

proof fn lemma_ranking_agrees(v: Seq<u32>, k: int, p: Seq<usize>, q: Seq<usize>, i: int)
    requires
        is_ranking(v, k, p),
        is_ranking(v, k, q),
        v.len() <= usize::MAX,
        0 <= i < k,
    ensures
        forall|j: int| 0 <= j <= i ==> p[j] == q[j],
    decreases i,
{
    if i > 0 {
        lemma_ranking_agrees(v, k, p, q, i - 1);
    }
    let a: usize = p[i];
    let b: usize = q[i];
    if a != b {
        if ahead(v, a as int, b as int) {
            if q.contains(a) {
                let j: int = choose|j: int| 0 <= j < q.len() && q[j] == a;
                if j < i {
                    assert(p[j] == a);
                    assert(ahead(v, p[j] as int, p[i] as int));
                } else {
                    assert(ahead(v, q[i] as int, q[j] as int));
                }
            } else {
                assert(ahead(v, q[i] as int, a as int));
            }
        } else {
            if p.contains(b) {
                let j: int = choose|j: int| 0 <= j < p.len() && p[j] == b;
                if j < i {
                    assert(q[j] == b);
                    assert(ahead(v, q[j] as int, q[i] as int));
                } else {
                    assert(ahead(v, p[i] as int, p[j] as int));
                }
            } else {
                assert(ahead(v, p[i] as int, b as int));
            }
        }
    }
}

/// No expert is chosen twice.
pub proof fn lemma_ranking_distinct(v: Seq<u32>, k: int, picks: Seq<usize>)
    requires
        is_ranking(v, k, picks),
    ensures
        picks.no_duplicates(),
{
    assert forall|i: int, j: int| 0 <= i < picks.len() && 0 <= j < picks.len() && i != j implies picks[i] != picks[j] by {
        if i < j {
            assert(ahead(v, picks[i] as int, picks[j] as int));
        } else {
            assert(ahead(v, picks[j] as int, picks[i] as int));
        }
    }
}

/// No expert that was left out scores higher than one that was chosen.
pub proof fn lemma_ranking_is_top(v: Seq<u32>, k: int, picks: Seq<usize>, i: int, e: int)
    requires
        is_ranking(v, k, picks),
        0 <= i < k,
        0 <= e < v.len(),
        !picks.contains(e as usize),
    ensures
        rank(v[e]) <= rank(v[picks[i] as int]),
{
    assert(ahead(v, picks[i] as int, e));
}

/// The best expert that is not taken.
fn best_left(v: &[u32], taken: &Vec<bool>) -> (r: usize)
    requires
        taken@.len() == v@.len(),
        exists|e: int| 0 <= e < v@.len() && !#[trigger] taken@[e],
    ensures
        r < v@.len(),
        !taken@[r as int],
        forall|e: int| 0 <= e < v@.len() && !#[trigger] taken@[e] && e != r ==> ahead(v@, r as int, e),
{
    let n: usize = v.len();
    let mut best: usize = n;
    for e in 0..n
        invariant
            n == v@.len(),
            taken@.len() == n,
            best <= n,
            best == n ==> forall|i: int| 0 <= i < e ==> #[trigger] taken@[i],
            best < n ==> {
                &&& best < e
                &&& !taken@[best as int]
                &&& forall|i: int| 0 <= i < e && !#[trigger] taken@[i] && i != best ==> ahead(v@, best as int, i)
            },
    {
        if !taken[e] {
            if best == n {
                best = e;
            } else if order_key(v[e]) > order_key(v[best]) {
                best = e;
            }
        }
    }
    best
}

/// The `topk` experts of one row of biased scores.
fn rank_row(v: &[u32], topk: usize) -> (r: Vec<usize>)
    requires
        topk <= v@.len(),
    ensures
        is_ranking(v@, topk as int, r@),
{
    let n: usize = v.len();
    let mut taken: Vec<bool> = filled(false, n);
    let mut picks: Vec<usize> = Vec::with_capacity(topk);
    for j in 0..topk
        invariant
            n == v@.len(),
            topk <= n,
            taken@.len() == n,
            is_ranking(v@, j as int, picks@),
            forall|e: int| 0 <= e < n ==> (#[trigger] taken@[e] <==> picks@.contains(e as usize)),
    {
        let ghost was: Seq<usize> = picks@;
        let ghost had: Seq<bool> = taken@;
        proof {
            lemma_ranking_distinct(v@, j as int, was);
            lemma_someone_left(was, n as int);
            let x: usize = choose|x: usize| x < n && !#[trigger] was.contains(x);
            assert(!taken@[x as int]);
        }
        let best: usize = best_left(v, &taken);
        taken.set(best, true);
        picks.push(best);
        proof {
            assert forall|e: int| 0 <= e < n implies (#[trigger] taken@[e] <==> picks@.contains(e as usize)) by {
                let x: usize = e as usize;
                if was.contains(x) {
                    let i: int = choose|i: int| 0 <= i < was.len() && was[i] == x;
                    assert(picks@[i] == x);
                }
                if x == best {
                    assert(picks@[j as int] == x);
                } else if picks@.contains(x) {
                    let i: int = choose|i: int| 0 <= i < picks@.len() && picks@[i] == x;
                    assert(was[i] == x);
                }
                assert(had[e] <==> was.contains(x));
            }
            assert(!was.contains(best)) by {
                assert(!had[best as int]);
            }
            assert forall|a: int, b: int| 0 <= a < b < j + 1 implies ahead(
                v@,
                #[trigger] picks@[a] as int,
                #[trigger] picks@[b] as int,
            ) by {
                assert(picks@[a] == was[a]);
                if b == j {
                    assert(ahead(v@, was[a] as int, best as int));
                } else {
                    assert(picks@[b] == was[b]);
                }
            }
            assert forall|i: int, e: int|
                0 <= i < j + 1 && 0 <= e < v@.len() && !picks@.contains(e as usize) implies #[trigger] ahead(
                v@,
                picks@[i] as int,
                e,
            ) by {
                assert(!taken@[e]);
                assert(!had[e] && e != best);
                assert(!was.contains(e as usize));
                if i < j {
                    assert(picks@[i] == was[i]);
                    assert(ahead(v@, was[i] as int, e));
                } else {
                    assert(ahead(v@, best as int, e));
                }
            }
        }
    }
    picks
}

proof fn lemma_someone_left(picks: Seq<usize>, n: int)
    requires
        picks.no_duplicates(),
        picks.len() < n <= usize::MAX,
    ensures
        exists|x: usize| x < n && !#[trigger] picks.contains(x),
{
    if forall|x: usize| x < n ==> #[trigger] picks.contains(x) {
        let ints: Set<int> = vstd::set_lib::set_int_range(0, n);
        vstd::set_lib::lemma_int_range(0, n);
        let wide: Seq<int> = picks.map_values(|x: usize| x as int);
        assert forall|e: int| ints.contains(e) implies wide.to_set().contains(e) by {
            let x: usize = e as usize;
            assert(picks.contains(x));
            let i: int = choose|i: int| 0 <= i < picks.len() && picks[i] == x;
            assert(wide[i] == e);
        }
        wide.lemma_cardinality_of_set();
        vstd::set_lib::lemma_len_subset(ints, wide.to_set());
        assert(false);
    }
}

/// The scores of the chosen experts of one row.
pub open spec fn picked_scores(scores: Seq<u32>, picks: Seq<usize>) -> Seq<u32> {
    picks.map_values(|e: usize| scores[e as int])
}

/// What the router's tables must be: `tokens` rows of `n_routed` scores, twice,
/// and scores that can be ordered.
pub open spec fn routing_in_range(scores: Seq<u32>, biased: Seq<u32>, tokens: int, c: &MoeV41Cfg) -> bool {
    &&& tokens * c.n_routed <= scores.len()
    &&& tokens * c.n_routed <= biased.len()
    &&& c.topk <= c.n_routed
    &&& tokens * c.topk <= usize::MAX
    &&& c.n_routed > 1 ==> forall|i: int| 0 <= i < tokens * c.n_routed ==> !is_nan(#[trigger] biased[i])
}

/// Whether the router can select from these tables.
pub fn routing_ready(scores: &[u32], biased: &[u32], tokens: usize, c: &MoeV41Cfg) -> (r: bool)
    ensures
        r == routing_in_range(scores@, biased@, tokens as int, c),
{
    let held: usize = biased.len();
    let held_scores: usize = scores.len();
    let cells: usize = match tokens.checked_mul(c.n_routed) {
        Some(cells) => cells,
        None => {
            return false;
        },
    };
    if cells > held_scores || cells > held || c.topk > c.n_routed || tokens.checked_mul(c.topk).is_none() {
        return false;
    }
    if c.n_routed > 1 {
        for i in 0..cells
            invariant
                cells == tokens * c.n_routed,
                cells <= held,
                held == biased@.len(),
                c.n_routed > 1,
                forall|j: int| 0 <= j < i ==> !is_nan(#[trigger] biased@[j]),
        {
            if nan(biased[i]) {
                return false;
            }
        }
    }
    true
}

/// The router's selection from the scores that its logits give: `scores` are
/// `sqrt(softplus(logit / temperature))`, `biased` the same plus the correction
/// bias, both `[tokens][n_routed]`. Each token goes to the `topk` experts with
/// the highest biased scores, at equal scores to those of lower number; what
/// comes back are their unbiased scores and their numbers, `[tokens][topk]`.
pub fn route_from_logits(scores: &[u32], biased: &[u32], tokens: usize, c: &MoeV41Cfg) -> (r: (Vec<u32>, Vec<usize>))
    requires
        routing_in_range(scores@, biased@, tokens as int, c),
    ensures
        r.0@.len() == tokens * c.topk,
        r.1@.len() == tokens * c.topk,
        forall|t: int|
            0 <= t < tokens ==> {
                &&& is_ranking(
                    row(biased@, t, c.n_routed as int),
                    c.topk as int,
                    #[trigger] row(r.1@, t, c.topk as int),
                )
                &&& row(r.0@, t, c.topk as int) == picked_scores(
                    row(scores@, t, c.n_routed as int),
                    row(r.1@, t, c.topk as int),
                )
            },
{
    let n: usize = c.n_routed;
    let k: usize = c.topk;
    let held: usize = biased.len();
    let held_scores: usize = scores.len();
    let mut weights: Vec<u32> = Vec::new();
    let mut indices: Vec<usize> = Vec::new();
    assert(0 * k == 0) by (nonlinear_arith);
    for t in 0..tokens
        invariant
            n == c.n_routed,
            k == c.topk,
            held == biased@.len(),
            held_scores == scores@.len(),
            routing_in_range(scores@, biased@, tokens as int, c),
            indices@.len() == t * k,
            weights@.len() == t * k,
            forall|i: int|
                0 <= i < t ==> {
                    &&& is_ranking(row(biased@, i, n as int), k as int, #[trigger] row(indices@, i, k as int))
                    &&& row(weights@, i, k as int) == picked_scores(
                        row(scores@, i, n as int),
                        row(indices@, i, k as int),
                    )
                },
    {
        proof {
            lemma_row_bounds(t as int, tokens as int, n as int);
            lemma_row_bounds(t as int, tokens as int, k as int);
        }
        let line: &[u32] = slice_subrange(biased, t * n, (t + 1) * n);
        let values: &[u32] = slice_subrange(scores, t * n, (t + 1) * n);
        let picks: Vec<usize> = rank_row(line, k);
        let ghost indices_before: Seq<usize> = indices@;
        let ghost weights_before: Seq<u32> = weights@;
        for j in 0..k
            invariant
                k == picks@.len(),
                n == values@.len(),
                forall|i: int| 0 <= i < k ==> (#[trigger] picks@[i]) < n,
                indices@ == indices_before + picks@.take(j as int),
                weights@ == weights_before + picked_scores(values@, picks@).take(j as int),
        {
            indices.push(picks[j]);
            weights.push(values[picks[j]]);
            assert(indices@ =~= indices_before + picks@.take(j + 1));
            assert(weights@ =~= weights_before + picked_scores(values@, picks@).take(j + 1));
        }
        proof {
            assert(indices@ =~= indices_before + picks@);
            assert(weights@ =~= weights_before + picked_scores(values@, picks@));
            assert((t + 1) * k == t * k + k) by (nonlinear_arith);
            assert forall|i: int| 0 <= i < t + 1 implies {
                &&& is_ranking(row(biased@, i, n as int), k as int, #[trigger] row(indices@, i, k as int))
                &&& row(weights@, i, k as int) == picked_scores(row(scores@, i, n as int), row(indices@, i, k as int))
            } by {
                if i < t {
                    lemma_row_bounds(i, t as int, k as int);
                    assert(row(indices@, i, k as int) =~= row(indices_before, i, k as int));
                    assert(row(weights@, i, k as int) =~= row(weights_before, i, k as int));
                } else {
                    assert(row(indices@, i, k as int) =~= picks@);
                    assert(row(weights@, i, k as int) =~= picked_scores(values@, picks@));
                }
            }
        }
    }
    (weights, indices)
}

/// The chosen experts come by descending score, and at equal scores the one of
/// the lower number first: among the chosen, and ahead of those left out.
pub proof fn lemma_ranking_breaks_ties(v: Seq<u32>, k: int, picks: Seq<usize>, i: int, j: int, e: int)
    requires
        is_ranking(v, k, picks),
        0 <= i < j < k,
        0 <= e < v.len(),
        !picks.contains(e as usize),
    ensures
        rank(v[picks[i] as int]) >= rank(v[picks[j] as int]),
        rank(v[picks[i] as int]) == rank(v[picks[j] as int]) ==> picks[i] < picks[j],
        rank(v[picks[j] as int]) == rank(v[e]) ==> picks[j] < e,
{
    assert(ahead(v, picks[i] as int, picks[j] as int));
    assert(ahead(v, picks[j] as int, e));
}

} // verus!
