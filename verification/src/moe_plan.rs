//! The routed assignments of a call, grouped by expert.
//!
//! Assignment `a` is the `a % topk`-th expert of token `a / topk`. Each expert
//! that a call goes to runs once, on all of its tokens.

use crate::rows::{lemma_row_bounds, row};
use vstd::prelude::*;

verus! {

/// One expert's turn.
#[derive(Clone, Copy, Debug, PartialEq, Eq, Structural)]
pub struct PlanStep {
    /// the first assignment to this expert
    pub first: usize,
    /// where its assignments start in the group-major order
    pub offset: usize,
    /// how many there are
    pub rows: usize,
}

/// The assignments to expert `e` among the first `n`, in order.
pub open spec fn members(indices: Seq<usize>, e: int, n: int) -> Seq<usize>
    decreases n,
{
    if n <= 0 {
        Seq::empty()
    } else if indices[n - 1] == e {
        members(indices, e, n - 1).push((n - 1) as usize)
    } else {
        members(indices, e, n - 1)
    }
}

/// All assignments to the experts below `e`, expert by expert.
pub open spec fn group_major(indices: Seq<usize>, e: int) -> Seq<usize>
    decreases e,
{
    if e <= 0 {
        Seq::empty()
    } else {
        group_major(indices, e - 1) + members(indices, e - 1, indices.len() as int)
    }
}

/// The turns of the experts below `e` that have any assignment, by number.
pub open spec fn plan_of(indices: Seq<usize>, e: int) -> Seq<PlanStep>
    decreases e,
{
    if e <= 0 {
        Seq::empty()
    } else {
        let m: Seq<usize> = members(indices, e - 1, indices.len() as int);
        if m.len() == 0 {
            plan_of(indices, e - 1)
        } else {
            plan_of(indices, e - 1).push(
                PlanStep {
                    first: m[0],
                    offset: group_major(indices, e - 1).len() as usize,
                    rows: m.len() as usize,
                },
            )
        }
    }
}

/// [`members`] are exactly the assignments to the expert, in ascending order.
pub proof fn lemma_members(indices: Seq<usize>, e: int, n: int)
    requires
        0 <= n <= indices.len(),
        indices.len() <= usize::MAX,
    ensures
        members(indices, e, n).len() <= n,
        forall|i: int|
            0 <= i < members(indices, e, n).len() ==> (#[trigger] members(indices, e, n)[i]) < n && indices[members(
                indices,
                e,
                n,
            )[i] as int] == e,
        forall|i: int, j: int|
            0 <= i < j < members(indices, e, n).len() ==> (#[trigger] members(indices, e, n)[i]) < (
            #[trigger] members(indices, e, n)[j]),
        forall|a: int|
            0 <= a < n && #[trigger] indices[a] == e ==> members(indices, e, n).contains(a as usize),
    decreases n,
{
    if n > 0 {
        lemma_members(indices, e, n - 1);
        let shorter: Seq<usize> = members(indices, e, n - 1);
        let m: Seq<usize> = members(indices, e, n);
        assert forall|a: int| 0 <= a < n && #[trigger] indices[a] == e implies m.contains(a as usize) by {
            if a < n - 1 {
                assert(shorter.contains(a as usize));
                let w: int = choose|w: int| 0 <= w < shorter.len() && shorter[w] == a as usize;
                assert(m[w] == a as usize);
            } else {
                assert(m[m.len() - 1] == a as usize);
            }
        }
    }
}

/// The group-major order goes through every assignment to an expert below `e`
/// once, and through no other.
pub proof fn lemma_group_major(indices: Seq<usize>, e: int)
    requires
        0 <= e,
        indices.len() <= usize::MAX,
    ensures
        group_major(indices, e).no_duplicates(),
        forall|i: int|
            0 <= i < group_major(indices, e).len() ==> (#[trigger] group_major(indices, e)[i]) < indices.len()
                && indices[group_major(indices, e)[i] as int] < e,
        forall|a: int|
            0 <= a < indices.len() && (#[trigger] indices[a]) < e ==> group_major(indices, e).contains(a as usize),
    decreases e,
{
    if e > 0 {
        lemma_group_major(indices, e - 1);
        lemma_members(indices, e - 1, indices.len() as int);
        let front: Seq<usize> = group_major(indices, e - 1);
        let back: Seq<usize> = members(indices, e - 1, indices.len() as int);
        let all: Seq<usize> = group_major(indices, e);
        assert(all =~= front + back);
        assert forall|i: int, j: int| 0 <= i < all.len() && 0 <= j < all.len() && i != j implies all[i] != all[j] by {
            if i < front.len() && j < front.len() {
                assert(front[i] != front[j]);
            } else if i < front.len() {
                assert(indices[front[i] as int] < e - 1);
                assert(indices[back[j - front.len()] as int] == e - 1);
            } else if j < front.len() {
                assert(indices[front[j] as int] < e - 1);
                assert(indices[back[i - front.len()] as int] == e - 1);
            } else {
                let x: int = i - front.len();
                let y: int = j - front.len();
                if x < y {
                    assert(back[x] < back[y]);
                } else {
                    assert(back[y] < back[x]);
                }
            }
        }
        assert forall|i: int| 0 <= i < all.len() implies (#[trigger] all[i]) < indices.len() && indices[all[i] as int]
            < e by {
            if i < front.len() {
                assert(all[i] == front[i]);
            } else {
                assert(all[i] == back[i - front.len()]);
            }
        }
        assert forall|a: int| 0 <= a < indices.len() && (#[trigger] indices[a]) < e implies all.contains(a as usize) by {
            if indices[a] < e - 1 {
                assert(front.contains(a as usize));
                let w: int = choose|w: int| 0 <= w < front.len() && front[w] == a as usize;
                assert(all[w] == a as usize);
            } else {
                assert(back.contains(a as usize));
                let w: int = choose|w: int| 0 <= w < back.len() && back[w] == a as usize;
                assert(all[front.len() + w] == a as usize);
            }
        }
    }
}

proof fn lemma_within(s: Seq<usize>, n: int)
    requires
        s.no_duplicates(),
        0 <= n,
        forall|i: int| 0 <= i < s.len() ==> (#[trigger] s[i]) < n,
    ensures
        s.len() <= n,
{
    let wide: Seq<int> = s.map_values(|x: usize| x as int);
    let ints: Set<int> = vstd::set_lib::set_int_range(0, n);
    vstd::set_lib::lemma_int_range(0, n);
    assert(wide.no_duplicates());
    wide.unique_seq_to_set();
    assert forall|x: int| wide.to_set().contains(x) implies ints.contains(x) by {
        let i: int = choose|i: int| 0 <= i < wide.len() && wide[i] == x;
        assert(s[i] < n);
    }
    vstd::set_lib::lemma_len_subset(wide.to_set(), ints);
}

/// Where every expert's number is below `n`, each assignment has its place in
/// the group-major order, and there are no more places than assignments.
pub proof fn lemma_group_major_is_complete(indices: Seq<usize>, n: int)
    requires
        0 <= n,
        indices.len() <= usize::MAX,
        forall|a: int| 0 <= a < indices.len() ==> (#[trigger] indices[a]) < n,
    ensures
        group_major(indices, n).no_duplicates(),
        group_major(indices, n).len() == indices.len(),
        forall|a: int| 0 <= a < indices.len() ==> #[trigger] group_major(indices, n).contains(a as usize),
{
    lemma_group_major(indices, n);
    let order: Seq<usize> = group_major(indices, n);
    assert forall|a: int| 0 <= a < indices.len() implies #[trigger] order.contains(a as usize) by {
        assert(indices[a] < n);
    }
    lemma_within(order, indices.len() as int);
    let wide: Seq<int> = order.map_values(|x: usize| x as int);
    let ints: Set<int> = vstd::set_lib::set_int_range(0, indices.len() as int);
    vstd::set_lib::lemma_int_range(0, indices.len() as int);
    assert forall|a: int| ints.contains(a) implies wide.to_set().contains(a) by {
        assert(order.contains(a as usize));
        let i: int = choose|i: int| 0 <= i < order.len() && order[i] == a as usize;
        assert(wide[i] == a);
    }
    wide.lemma_cardinality_of_set();
    vstd::set_lib::lemma_len_subset(ints, wide.to_set());
}

/// Each turn runs one expert on its own stretch of the group-major order: the
/// stretches follow each other without a gap, the experts ascend, and within a
/// stretch the assignments ascend.
pub proof fn lemma_plan(indices: Seq<usize>, e: int)
    requires
        0 <= e,
        indices.len() <= usize::MAX,
    ensures
        group_major(indices, e).len() <= indices.len(),
        plan_of(indices, e).len() <= group_major(indices, e).len(),
        plan_of(indices, e).len() == 0 ==> group_major(indices, e).len() == 0,
        forall|i: int|
            0 <= i < plan_of(indices, e).len() ==> {
                let s: PlanStep = #[trigger] plan_of(indices, e)[i];
                let order: Seq<usize> = group_major(indices, e);
                &&& s.first < indices.len()
                &&& indices[s.first as int] < e
                &&& s.rows > 0
                &&& s.offset + s.rows <= order.len()
                &&& order.subrange(s.offset as int, s.offset + s.rows) == members(
                    indices,
                    indices[s.first as int] as int,
                    indices.len() as int,
                )
                &&& order[s.offset as int] == s.first
                &&& i == 0 ==> s.offset == 0
                &&& i + 1 == plan_of(indices, e).len() ==> s.offset + s.rows == order.len()
            },
        forall|i: int, j: int|
            0 <= i < j < plan_of(indices, e).len() ==> {
                let a: PlanStep = #[trigger] plan_of(indices, e)[i];
                let b: PlanStep = #[trigger] plan_of(indices, e)[j];
                &&& indices[a.first as int] < indices[b.first as int]
                &&& a.offset + a.rows <= b.offset
                &&& j == i + 1 ==> a.offset + a.rows == b.offset
            },
    decreases e,
{
    lemma_group_major(indices, e);
    lemma_within(group_major(indices, e), indices.len() as int);
    if e > 0 {
        lemma_plan(indices, e - 1);
        lemma_members(indices, e - 1, indices.len() as int);
        let front: Seq<usize> = group_major(indices, e - 1);
        let back: Seq<usize> = members(indices, e - 1, indices.len() as int);
        let order: Seq<usize> = group_major(indices, e);
        let shorter: Seq<PlanStep> = plan_of(indices, e - 1);
        let plan: Seq<PlanStep> = plan_of(indices, e);
        assert(order =~= front + back);
        if back.len() == 0 {
            assert(order =~= front);
        } else {
            assert forall|i: int| 0 <= i < plan.len() implies {
                let s: PlanStep = #[trigger] plan[i];
                &&& s.first < indices.len()
                &&& indices[s.first as int] < e
                &&& s.rows > 0
                &&& s.offset + s.rows <= order.len()
                &&& order.subrange(s.offset as int, s.offset + s.rows) == members(
                    indices,
                    indices[s.first as int] as int,
                    indices.len() as int,
                )
                &&& order[s.offset as int] == s.first
                &&& i == 0 ==> s.offset == 0
                &&& i + 1 == plan.len() ==> s.offset + s.rows == order.len()
            } by {
                let s: PlanStep = plan[i];
                if i < shorter.len() {
                    assert(s == shorter[i]);
                    assert(order.subrange(s.offset as int, s.offset + s.rows) =~= front.subrange(
                        s.offset as int,
                        s.offset + s.rows,
                    ));
                    assert(order[s.offset as int] == front[s.offset as int]);
                } else {
                    assert(s.first == back[0]);
                    assert(indices[back[0] as int] == e - 1);
                    assert(order.subrange(s.offset as int, s.offset + s.rows) =~= back);
                    assert(order[s.offset as int] == back[0]);
                }
            }
            assert forall|i: int, j: int| 0 <= i < j < plan.len() implies {
                let a: PlanStep = #[trigger] plan[i];
                let b: PlanStep = #[trigger] plan[j];
                &&& indices[a.first as int] < indices[b.first as int]
                &&& a.offset + a.rows <= b.offset
                &&& j == i + 1 ==> a.offset + a.rows == b.offset
            } by {
                assert(plan[i] == shorter[i]);
                if j < shorter.len() {
                    assert(plan[j] == shorter[j]);
                } else {
                    assert(indices[back[0] as int] == e - 1);
                    assert(indices[shorter[i].first as int] < e - 1);
                }
            }
        }
    }
}

/// The turn of expert `e` among the turns of the experts below `n`.
pub proof fn lemma_turn_of_expert(indices: Seq<usize>, n: int, e: int) -> (i: int)
    requires
        0 <= e < n,
        indices.len() <= usize::MAX,
        members(indices, e, indices.len() as int).len() > 0,
    ensures
        0 <= i < plan_of(indices, n).len(),
        plan_of(indices, n)[i].first == members(indices, e, indices.len() as int)[0],
    decreases n,
{
    if e == n - 1 {
        plan_of(indices, n).len() - 1
    } else {
        let i: int = lemma_turn_of_expert(indices, n - 1, e);
        assert(plan_of(indices, n)[i] == plan_of(indices, n - 1)[i]);
        i
    }
}

/// Every assignment is run in one turn, that of its expert, and in no other.
pub proof fn lemma_every_assignment_has_one_turn(indices: Seq<usize>, n: int, a: int) -> (i: int)
    requires
        0 <= n,
        indices.len() <= usize::MAX,
        0 <= a < indices.len(),
        indices[a] < n,
    ensures
        0 <= i < plan_of(indices, n).len(),
        indices[plan_of(indices, n)[i].first as int] == indices[a],
        group_major(indices, n).subrange(
            plan_of(indices, n)[i].offset as int,
            plan_of(indices, n)[i].offset + plan_of(indices, n)[i].rows,
        ).contains(a as usize),
        forall|j: int|
            0 <= j < plan_of(indices, n).len() && j != i ==> !group_major(indices, n).subrange(
                (#[trigger] plan_of(indices, n)[j]).offset as int,
                plan_of(indices, n)[j].offset + plan_of(indices, n)[j].rows,
            ).contains(a as usize),
{
    let e: int = indices[a] as int;
    let len: int = indices.len() as int;
    lemma_members(indices, e, len);
    assert(members(indices, e, len).contains(a as usize));
    let i: int = lemma_turn_of_expert(indices, n, e);
    lemma_plan(indices, n);
    let plan: Seq<PlanStep> = plan_of(indices, n);
    let order: Seq<usize> = group_major(indices, n);
    assert(indices[plan[i].first as int] == e);
    assert(order.subrange(plan[i].offset as int, plan[i].offset + plan[i].rows) == members(indices, e, len));
    assert forall|j: int| 0 <= j < plan.len() && j != i implies !order.subrange(
        (#[trigger] plan[j]).offset as int,
        plan[j].offset + plan[j].rows,
    ).contains(a as usize) by {
        let other: int = indices[plan[j].first as int] as int;
        lemma_members(indices, other, len);
        if j < i {
            assert(indices[plan[j].first as int] < indices[plan[i].first as int]);
        } else {
            assert(indices[plan[i].first as int] < indices[plan[j].first as int]);
        }
        let stretch: Seq<usize> = members(indices, other, len);
        if stretch.contains(a as usize) {
            let k: int = choose|k: int| 0 <= k < stretch.len() && stretch[k] == a as usize;
            assert(indices[stretch[k] as int] == other);
        }
    }
    i
}

/// The experts that a call goes to exist, and no token goes to one twice.
pub open spec fn routing_is_sound(indices: Seq<usize>, m: int, topk: int, n_routed: int) -> bool {
    &&& indices.len() == m * topk
    &&& forall|a: int| 0 <= a < indices.len() ==> (#[trigger] indices[a]) < n_routed
    &&& forall|t: int| 0 <= t < m ==> (#[trigger] row(indices, t, topk)).no_duplicates()
}

proof fn lemma_assignment(indices: Seq<usize>, m: int, topk: int, n_routed: int, a: int)
    requires
        routing_is_sound(indices, m, topk, n_routed),
        0 <= m,
        0 <= a < indices.len(),
    ensures
        0 < topk,
        0 <= a / topk < m,
        0 <= a % topk < topk,
        a == (a / topk) * topk + a % topk,
{
    assert(topk > 0) by (nonlinear_arith)
        requires
            0 <= m,
            0 < m * topk,
    ;
    vstd::arithmetic::div_mod::lemma_fundamental_div_mod(a, topk);
    assert(topk * (a / topk) == (a / topk) * topk) by (nonlinear_arith);
    vstd::arithmetic::div_mod::lemma_mod_pos_bound(a, topk);
    assert(0 <= a / topk < m) by (nonlinear_arith)
        requires
            0 <= a < m * topk,
            topk > 0,
            a == (a / topk) * topk + a % topk,
            0 <= a % topk < topk,
    ;
}

/// Within a turn the tokens ascend, each once; so an expert runs on at most as
/// many rows as there are tokens.
pub proof fn lemma_members_are_distinct_tokens(indices: Seq<usize>, m: int, topk: int, n_routed: int, e: int)
    requires
        routing_is_sound(indices, m, topk, n_routed),
        indices.len() <= usize::MAX,
        0 <= m,
    ensures
        forall|i: int, j: int|
            0 <= i < j < members(indices, e, indices.len() as int).len() ==> (#[trigger] members(
                indices,
                e,
                indices.len() as int,
            )[i]) as int / topk < (#[trigger] members(indices, e, indices.len() as int)[j]) as int / topk,
        members(indices, e, indices.len() as int).len() <= m,
{
    let n: int = indices.len() as int;
    let mem: Seq<usize> = members(indices, e, n);
    lemma_members(indices, e, n);
    assert forall|i: int, j: int| 0 <= i < j < mem.len() implies (#[trigger] mem[i]) as int / topk < (
    #[trigger] mem[j]) as int / topk by {
        let a: int = mem[i] as int;
        let b: int = mem[j] as int;
        assert(a < b);
        lemma_assignment(indices, m, topk, n_routed, a);
        lemma_assignment(indices, m, topk, n_routed, b);
        vstd::arithmetic::div_mod::lemma_div_is_ordered(a, b, topk);
        if a / topk == b / topk {
            let t: int = a / topk;
            lemma_row_bounds(t, m, topk);
            assert(row(indices, t, topk)[a % topk] == indices[a]);
            assert(row(indices, t, topk)[b % topk] == indices[b]);
            assert(a % topk != b % topk);
            assert(row(indices, t, topk).no_duplicates());
        }
    }
    if mem.len() > 0 {
        let tokens: Seq<usize> = mem.map_values(|a: usize| (a as int / topk) as usize);
        assert forall|i: int| 0 <= i < tokens.len() implies (#[trigger] tokens[i]) < m && tokens[i] == mem[i] as int
            / topk by {
            lemma_assignment(indices, m, topk, n_routed, mem[i] as int);
            assert(mem[i] as int / topk <= mem[i]) by (nonlinear_arith)
                requires
                    topk > 0,
            ;
        }
        assert forall|i: int, j: int| 0 <= i < tokens.len() && 0 <= j < tokens.len() && i != j implies tokens[i]
            != tokens[j] by {
            if i < j {
                assert(mem[i] as int / topk < mem[j] as int / topk);
            } else {
                assert(mem[j] as int / topk < mem[i] as int / topk);
            }
        }
        lemma_within(tokens, m);
    }
}

/// A single token's experts take one turn each, of one row.
pub proof fn lemma_single_token_plan(indices: Seq<usize>, topk: int, n_routed: int)
    requires
        routing_is_sound(indices, 1, topk, n_routed),
        0 <= n_routed,
        indices.len() <= usize::MAX,
    ensures
        plan_of(indices, n_routed).len() == topk,
        forall|i: int| 0 <= i < plan_of(indices, n_routed).len() ==> (#[trigger] plan_of(indices, n_routed)[i]).rows == 1,
        forall|i: int|
            0 <= i < plan_of(indices, n_routed).len() ==> (#[trigger] plan_of(indices, n_routed)[i]).offset == i,
{
    lemma_plan(indices, n_routed);
    lemma_group_major_is_complete(indices, n_routed);
    let plan: Seq<PlanStep> = plan_of(indices, n_routed);
    assert forall|i: int| 0 <= i < plan.len() implies (#[trigger] plan[i]).rows == 1 by {
        let s: PlanStep = plan[i];
        let e: int = indices[s.first as int] as int;
        lemma_members_are_distinct_tokens(indices, 1, topk, n_routed, e);
        assert(group_major(indices, n_routed).subrange(s.offset as int, s.offset + s.rows).len() == s.rows);
    }
    assert forall|i: int| 0 <= i < plan.len() implies (#[trigger] plan[i]).offset == i by {
        lemma_unit_offsets(plan, i);
    }
    if plan.len() > 0 {
        assert(plan[plan.len() - 1].offset + 1 == indices.len());
    }
}

proof fn lemma_unit_offsets(plan: Seq<PlanStep>, i: int)
    requires
        0 <= i < plan.len(),
        plan[0].offset == 0,
        forall|j: int| 0 <= j < plan.len() ==> (#[trigger] plan[j]).rows == 1,
        forall|a: int, b: int|
            0 <= a < b < plan.len() ==> (b == a + 1 ==> (#[trigger] plan[a]).offset + plan[a].rows
                == (#[trigger] plan[b]).offset),
    ensures
        plan[i].offset == i,
    decreases i,
{
    if i > 0 {
        lemma_unit_offsets(plan, i - 1);
        assert(plan[i - 1].offset + plan[i - 1].rows == plan[i].offset);
    }
}

/// The assignments of a call, grouped by expert: the group-major order and the
/// turns.
pub fn group_by_expert(indices: &[usize], n_routed: usize) -> (r: (Vec<usize>, Vec<PlanStep>))
    ensures
        r.0@ == group_major(indices@, n_routed as int),
        r.1@ == plan_of(indices@, n_routed as int),
{
    let n: usize = indices.len();
    let mut order: Vec<usize> = Vec::new();
    let mut plan: Vec<PlanStep> = Vec::new();
    for e in 0..n_routed
        invariant
            n == indices@.len(),
            order@ == group_major(indices@, e as int),
            plan@ == plan_of(indices@, e as int),
    {
        let offset: usize = order.len();
        let ghost before: Seq<usize> = order@;
        let ghost plan_before: Seq<PlanStep> = plan@;
        for a in 0..n
            invariant
                n == indices@.len(),
                order@ == before + members(indices@, e as int, a as int),
        {
            if indices[a] == e {
                order.push(a);
            }
            assert(order@ =~= before + members(indices@, e as int, a + 1));
        }
        let rows: usize = order.len() - offset;
        assert(order@.len() == offset + members(indices@, e as int, n as int).len());
        if rows > 0 {
            let first: usize = order[offset];
            plan.push(PlanStep { first, offset, rows });
        }
        assert(order@ == group_major(indices@, e + 1));
        assert(plan@ =~= plan_of(indices@, e + 1));
    }
    (order, plan)
}

} // verus!
