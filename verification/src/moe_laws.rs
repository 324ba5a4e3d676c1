//! Laws of the experts that span functions: what the router selects is what the
//! experts can run, and what they upload stays inside the workspaces.

use crate::bytes::{le32, le64};
use crate::device::{BlockFormat, DevicePtr, Kernel};
use crate::moe::{
    pointer_bytes, slot_pointer, token_row_bytes, weight_bytes, ActivationBytes, ExpertSlot, MoeV41, MoeV41Cfg,
    MoeV41LayerWeights, MoeV41Layout, ResidentMat,
};
use crate::moe_plan::{
    group_major, lemma_group_major_is_complete, lemma_members_are_distinct_tokens, lemma_plan, lemma_single_token_plan,
    members, plan_of, routing_is_sound, PlanStep,
};
use crate::moe_route::{is_ranking, lemma_ranking_distinct, picked_scores};
use crate::rows::{lemma_concat_rows_len, lemma_concat_rows_row, lemma_mul_le, lemma_row_bounds, row, table_bytes};
use vstd::prelude::*;

verus! {

/// A selection of the router is one that the experts can run: every expert
/// exists, and no token goes to one twice.
pub proof fn lemma_routing_is_sound(biased: Seq<u32>, indices: Seq<usize>, tokens: int, c: &MoeV41Cfg)
    requires
        0 <= tokens,
        tokens * c.n_routed <= biased.len(),
        indices.len() == tokens * c.topk,
        forall|t: int|
            0 <= t < tokens ==> is_ranking(
                row(biased, t, c.n_routed as int),
                c.topk as int,
                #[trigger] row(indices, t, c.topk as int),
            ),
    ensures
        routing_is_sound(indices, tokens, c.topk as int, c.n_routed as int),
{
    let n: int = c.n_routed as int;
    let k: int = c.topk as int;
    assert forall|t: int| 0 <= t < tokens implies (#[trigger] row(indices, t, k)).no_duplicates() by {
        lemma_ranking_distinct(row(biased, t, n), k, row(indices, t, k));
    }
    assert forall|a: int| 0 <= a < indices.len() implies (#[trigger] indices[a]) < n by {
        assert(k > 0) by (nonlinear_arith)
            requires
                0 <= tokens,
                0 < tokens * k,
        ;
        let t: int = a / k;
        let j: int = a % k;
        vstd::arithmetic::div_mod::lemma_fundamental_div_mod(a, k);
        vstd::arithmetic::div_mod::lemma_mod_pos_bound(a, k);
        assert(k * t == t * k) by (nonlinear_arith);
        assert(0 <= t < tokens) by (nonlinear_arith)
            requires
                0 <= a < tokens * k,
                k > 0,
                a == t * k + j,
                0 <= j < k,
        ;
        lemma_row_bounds(t, tokens, k);
        lemma_row_bounds(t, tokens, n);
        assert(is_ranking(row(biased, t, n), k, row(indices, t, k)));
        assert(row(indices, t, k)[j] == indices[a]);
        assert(row(biased, t, n).len() == n);
    }
}

/// The token rows and routing weights of a call fit into their workspaces, and
/// there is one of each per assignment.
pub proof fn lemma_assignments_fit(
    c: &MoeV41Cfg,
    act: ActivationBytes,
    m: int,
    indices: Seq<usize>,
    weights: Seq<u32>,
)
    requires
        c.fits(),
        1 <= m <= c.max_tokens,
        routing_is_sound(indices, m, c.topk as int, c.n_routed as int),
        indices.len() <= usize::MAX,
    ensures
        token_row_bytes(group_major(indices, c.n_routed as int), c.topk as int).len() == 4 * (m * c.topk),
        weight_bytes(group_major(indices, c.n_routed as int), weights).len() == 4 * (m * c.topk),
        4 * (m * c.topk) <= c.layout_of(act).rows_dev,
        4 * (m * c.topk) <= c.layout_of(act).weight_dev,
{
    let order: Seq<usize> = group_major(indices, c.n_routed as int);
    lemma_group_major_is_complete(indices, c.n_routed as int);
    let f = |i: int| le32(((order[i] as int / c.topk as int) as i32) as u32);
    let g = |i: int| le32(weights[order[i] as int]);
    assert forall|i: int| 0 <= i < order.len() implies (#[trigger] f(i)).len() == 4 by {}
    assert forall|i: int| 0 <= i < order.len() implies (#[trigger] g(i)).len() == 4 by {}
    lemma_concat_rows_len(order.len(), 4, f);
    lemma_concat_rows_len(order.len(), 4, g);
    lemma_mul_le(m, c.max_tokens as int, c.topk as int);
    lemma_mul_le(0, c.max_tokens as int, c.topk as int);
}

/// No expert's turn takes more rows than the workspaces of a call hold.
pub proof fn lemma_turns_fit(c: &MoeV41Cfg, act: ActivationBytes, m: int, indices: Seq<usize>, i: int)
    requires
        c.fits(),
        1 <= m <= c.max_tokens,
        routing_is_sound(indices, m, c.topk as int, c.n_routed as int),
        indices.len() <= usize::MAX,
        0 <= i < plan_of(indices, c.n_routed as int).len(),
    ensures
        plan_of(indices, c.n_routed as int)[i].rows <= m,
        plan_of(indices, c.n_routed as int)[i].rows * c.dim * 2 <= c.layout_of(act).a_rows,
        plan_of(indices, c.n_routed as int)[i].rows * c.inter * 2 <= c.layout_of(act).gate_out,
{
    lemma_plan(indices, c.n_routed as int);
    let s: PlanStep = plan_of(indices, c.n_routed as int)[i];
    let order: Seq<usize> = group_major(indices, c.n_routed as int);
    assert(order.subrange(s.offset as int, s.offset + s.rows).len() == s.rows);
    lemma_members_are_distinct_tokens(
        indices,
        m,
        c.topk as int,
        c.n_routed as int,
        indices[s.first as int] as int,
    );
    lemma_mul_le(s.rows as int, c.max_tokens as int, c.dim as int);
    lemma_mul_le(s.rows as int, c.max_tokens as int, c.inter as int);
    lemma_mul_le(0, c.max_tokens as int, c.dim as int);
    lemma_mul_le(0, c.max_tokens as int, c.inter as int);
}

/// A single token's pointer table fits into its workspace. Its experts' rows
/// fit into theirs where the workspaces are made for at least as many tokens as
/// a token has experts.
pub proof fn lemma_single_token_fits(
    c: &MoeV41Cfg,
    act: ActivationBytes,
    indices: Seq<usize>,
    slots: Seq<ExpertSlot>,
)
    requires
        c.fits(),
        routing_is_sound(indices, 1, c.topk as int, c.n_routed as int),
        indices.len() <= usize::MAX,
    ensures
        ({
            let plan: Seq<PlanStep> = plan_of(indices, c.n_routed as int);
            &&& (pointer_bytes(plan, slots, 0) + pointer_bytes(plan, slots, 1) + pointer_bytes(plan, slots, 2)).len()
                <= c.layout_of(act).ptrs_dev
            &&& c.topk <= c.max_tokens ==> plan.len() * c.inter * 2 <= c.layout_of(act).gate_out && plan.len() * c.dim
                * 2 <= c.layout_of(act).down_out
        }),
{
    let plan: Seq<PlanStep> = plan_of(indices, c.n_routed as int);
    lemma_single_token_plan(indices, c.topk as int, c.n_routed as int);
    let f0 = |i: int| le64(slot_pointer(slots[plan[i].first as int], 0));
    let f1 = |i: int| le64(slot_pointer(slots[plan[i].first as int], 1));
    let f2 = |i: int| le64(slot_pointer(slots[plan[i].first as int], 2));
    assert forall|i: int| 0 <= i < plan.len() implies (#[trigger] f0(i)).len() == 8 by {}
    assert forall|i: int| 0 <= i < plan.len() implies (#[trigger] f1(i)).len() == 8 by {}
    assert forall|i: int| 0 <= i < plan.len() implies (#[trigger] f2(i)).len() == 8 by {}
    lemma_concat_rows_len(plan.len(), 8, f0);
    lemma_concat_rows_len(plan.len(), 8, f1);
    lemma_concat_rows_len(plan.len(), 8, f2);
    if c.topk <= c.max_tokens {
        lemma_mul_le(c.topk as int, c.max_tokens as int, c.inter as int);
        lemma_mul_le(c.topk as int, c.max_tokens as int, c.dim as int);
        lemma_mul_le(0, c.max_tokens as int, c.dim as int);
        lemma_mul_le(0, c.max_tokens as int, c.inter as int);
    }
}

/// Entry `i` of each of the three pointer tables is the matrix of the expert
/// whose turn is the `i`-th, of the first its gate, of the second its up, of the
/// third its down matrix, and the tables are where the launches look for
/// them: `which` tables of the plan's length behind the start.
pub proof fn lemma_pointer_table(plan: Seq<PlanStep>, slots: Seq<ExpertSlot>, which: int, i: int)
    requires
        0 <= which < 3,
        0 <= i < plan.len(),
    ensures
        ({
            let table: Seq<u8> = pointer_bytes(plan, slots, 0) + pointer_bytes(plan, slots, 1) + pointer_bytes(
                plan,
                slots,
                2,
            );
            let at: int = which * plan.len() * 8 + 8 * i;
            let slot: ExpertSlot = slots[plan[i].first as int];
            &&& at + 8 <= table.len()
            &&& which == 0 ==> table.subrange(at, at + 8) == le64(slot.gate.0)
            &&& which == 1 ==> table.subrange(at, at + 8) == le64(slot.up.0)
            &&& which == 2 ==> table.subrange(at, at + 8) == le64(slot.down.0)
        }),
{
    let n: int = plan.len() as int;
    let f0 = |j: int| le64(slot_pointer(slots[plan[j].first as int], 0));
    let f1 = |j: int| le64(slot_pointer(slots[plan[j].first as int], 1));
    let f2 = |j: int| le64(slot_pointer(slots[plan[j].first as int], 2));
    assert forall|j: int| 0 <= j < n implies (#[trigger] f0(j)).len() == 8 by {}
    assert forall|j: int| 0 <= j < n implies (#[trigger] f1(j)).len() == 8 by {}
    assert forall|j: int| 0 <= j < n implies (#[trigger] f2(j)).len() == 8 by {}
    lemma_concat_rows_row(n as nat, 8, f0, i);
    lemma_concat_rows_row(n as nat, 8, f1, i);
    lemma_concat_rows_row(n as nat, 8, f2, i);
    let p0: Seq<u8> = pointer_bytes(plan, slots, 0);
    let p1: Seq<u8> = pointer_bytes(plan, slots, 1);
    let p2: Seq<u8> = pointer_bytes(plan, slots, 2);
    let table: Seq<u8> = p0 + p1 + p2;
    let at: int = which * plan.len() * 8 + 8 * i;
    if which == 0 {
        assert(0 * n == 0);
        assert(table.subrange(at, at + 8) =~= row(p0, i, 8));
    } else if which == 1 {
        assert(1 * n == n);
        assert(table.subrange(at, at + 8) =~= row(p1, i, 8));
    } else {
        assert(2 * n * 8 == 16 * n);
        assert(table.subrange(at, at + 8) =~= row(p2, i, 8));
    }
}

/// An expert's turn reads the tokens and the weights of its own assignments:
/// from its offset on, in order.
pub proof fn lemma_turn_reads_its_assignments(
    indices: Seq<usize>,
    weights: Seq<u32>,
    topk: int,
    n_routed: int,
    i: int,
    k: int,
)
    requires
        0 <= n_routed,
        indices.len() <= usize::MAX,
        0 <= i < plan_of(indices, n_routed).len(),
        0 <= k < plan_of(indices, n_routed)[i].rows,
    ensures
        ({
            let step: PlanStep = plan_of(indices, n_routed)[i];
            let order: Seq<usize> = group_major(indices, n_routed);
            let a: usize = members(indices, indices[step.first as int] as int, indices.len() as int)[k];
            &&& row(token_row_bytes(order, topk), step.offset + k, 4) == le32(((a as int / topk) as i32) as u32)
            &&& row(weight_bytes(order, weights), step.offset + k, 4) == le32(weights[a as int])
        }),
{
    lemma_plan(indices, n_routed);
    let step: PlanStep = plan_of(indices, n_routed)[i];
    let order: Seq<usize> = group_major(indices, n_routed);
    let e: int = indices[step.first as int] as int;
    let place: int = step.offset + k;
    assert(order.subrange(step.offset as int, step.offset + step.rows)[k] == order[place]);
    let f = |j: int| le32(((order[j] as int / topk) as i32) as u32);
    let g = |j: int| le32(weights[order[j] as int]);
    assert forall|j: int| 0 <= j < order.len() implies (#[trigger] f(j)).len() == 4 by {}
    assert forall|j: int| 0 <= j < order.len() implies (#[trigger] g(j)).len() == 4 by {}
    lemma_concat_rows_row(order.len(), 4, f, place);
    lemma_concat_rows_row(order.len(), 4, g, place);
}

/// Every workspace is a table with a row per token of the largest call, the
/// pointer table three pointers per expert of a token; the quantised activations
/// have room for either layout.
pub proof fn lemma_expert_workspace_sizes(c: MoeV41Cfg, act: ActivationBytes)
    requires
        c.fits(),
    ensures
        ({
            let l: MoeV41Layout = c.layout_of(act);
            let m: int = c.max_tokens as int;
            let dim: int = c.dim as int;
            let inter: int = c.inter as int;
            &&& l.logits == table_bytes(m, c.n_routed as int, 4)
            &&& l.a_rows == table_bytes(m, dim, 2)
            &&& l.gate_out == table_bytes(m, inter, 2)
            &&& l.up_out == table_bytes(m, inter, 2)
            &&& l.h == table_bytes(m, inter, 2)
            &&& l.down_out == table_bytes(m, dim, 2)
            &&& l.rows_dev == table_bytes(m, c.topk as int, 4)
            &&& l.weight_dev == table_bytes(m, c.topk as int, 4)
            &&& l.ptrs_dev == table_bytes(3, c.topk as int, 8)
            &&& l.sg == table_bytes(m, inter, 2)
            &&& l.su == table_bytes(m, inter, 2)
            &&& l.sh == table_bytes(m, inter, 2)
            &&& l.sd == table_bytes(m, dim, 2)
            &&& l.acc == table_bytes(m, dim, 4)
            &&& l.out == table_bytes(m, dim, 2)
            &&& l.a_q8 >= 16 && l.a_q8 >= act.tiled_dim && l.a_q8 >= act.rows_dim
            &&& l.a_q8 == 16 || l.a_q8 == act.tiled_dim || l.a_q8 == act.rows_dim
            &&& l.h_q8 >= 16 && l.h_q8 >= act.tiled_inter && l.h_q8 >= act.rows_inter
            &&& l.h_q8 == 16 || l.h_q8 == act.tiled_inter || l.h_q8 == act.rows_inter
        }),
{
    let m: int = c.max_tokens as int;
    lemma_mul_le(0, m, c.dim as int);
    lemma_mul_le(0, m, c.inter as int);
    lemma_mul_le(0, m, c.topk as int);
    lemma_mul_le(0, m, c.n_routed as int);
}

/// Up to 8 rows are multiplied row by row, more on tiles: by the router, by an
/// expert, and by the shared expert where it is in blocks. A bf16 matrix takes a
/// single row as a vector.
pub proof fn lemma_eight_rows(
    moe: MoeV41,
    w: &MoeV41LayerWeights,
    format: BlockFormat,
    a: DevicePtr,
    a_q8: DevicePtr,
    p: DevicePtr,
    out: DevicePtr,
    m: int,
    n: int,
    k: int,
)
    requires
        1 <= m,
    ensures
        m <= 8 <==> moe.route_cmds(w, a, m)[0]->kernel == Kernel::MoeRouterGemv,
        m > 8 <==> moe.route_cmds(w, a, m)[0]->kernel == Kernel::DenseGemmBf16F32out,
        m <= 8 <==> MoeV41::block_product_cmds(format, a, a_q8, seq![(p, out)], m, n, k)[1] is Mmvq,
        m > 8 <==> MoeV41::block_product_cmds(format, a, a_q8, seq![(p, out)], m, n, k)[1] is MmqGemm,
        m == 1 <==> MoeV41::resident_cmds(a, a_q8, ResidentMat::Bf16(p), out, m, n, k)[0] is DenseGemv,
        m > 1 <==> MoeV41::resident_cmds(a, a_q8, ResidentMat::Bf16(p), out, m, n, k)[0] is DenseGemm,
{
}

/// The weights of a token's experts are their own scores, without the bias that
/// they were chosen by.
pub proof fn lemma_picked_scores(scores: Seq<u32>, picks: Seq<usize>, j: int)
    requires
        0 <= j < picks.len(),
    ensures
        picked_scores(scores, picks).len() == picks.len(),
        picked_scores(scores, picks)[j] == scores[picks[j] as int],
{
}

} // verus!
