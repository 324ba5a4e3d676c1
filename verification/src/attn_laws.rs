//! Laws of the attention layers that span calls: they agree with the host's
//! model of a layer, and what they upload stays inside the workspaces.

use crate::attn::{lemma_score_fits, AttnPending};
use crate::attn_cfg::{
    at_least_1, lemma_state_fits, AttnError, AttnV41, AttnV41Cfg, AttnV41LayerState, AttnV41LayerWeights, AttnV41Layout,
    LayerRole, SharedV41,
};
use crate::attn_steps::{
    call_in_range, group_positions_of, lemma_groups_in_range, lemma_prefill_split, token_positions,
};
use crate::bytes::{ints_bytes, le32, words_of};
use crate::compress::{
    attended_selection, completed_groups, completes_group, index_request, merged_index, CompAttnCfg, IndexerCfg,
    SharedRuntime,
};
use crate::device::{has_room, offset_by, CommandView, DevicePtr};
use crate::device_memory::{lemma_copy_splices, region, transferred};
use crate::index_select::{
    lemma_index_row_len, lemma_index_table_len, lemma_published_candidates, lemma_selected_positions_are_reachable,
    IndexRequest,
};
use crate::rows::{lemma_concat_rows_len, lemma_concat_rows_row, lemma_mul_le, lemma_row_bounds, row, spliced, table_bytes};
use crate::select::candidate_row;
use vstd::arithmetic::div_mod::{lemma_fundamental_div_mod, lemma_fundamental_div_mod_converse, lemma_mod_pos_bound};
use vstd::prelude::*;

verus! {

/// Signed words take four bytes each.
pub proof fn lemma_ints_bytes_len(v: Seq<i32>)
    ensures
        ints_bytes(v).len() == 4 * v.len(),
{
    let f = |i: int| le32(v[i] as u32);
    assert forall|i: int| 0 <= i < v.len() implies (#[trigger] f(i)).len() == 4 by {}
    lemma_concat_rows_len(v.len(), 4, f);
}

/// There is one position per token and repetition.
pub proof fn lemma_token_positions_len(start_pos: int, m: int, n: int)
    requires
        0 <= m,
        0 <= n,
    ensures
        token_positions(start_pos, m, n).len() == m * n,
{
    let f = |t: int| Seq::new(n as nat, |h: int| (start_pos + t) as i32);
    assert forall|t: int| 0 <= t < m implies (#[trigger] f(t)).len() == n by {}
    lemma_concat_rows_len(m as nat, n, f);
}

/// A compressed layer and the host's model of it attend the same positions: at
/// the same geometry and role, after the same layers, from the same scores.
pub proof fn lemma_attends_as_the_host_does(
    attn: AttnV41,
    w: AttnV41LayerWeights,
    st: AttnV41LayerState,
    shared: SharedV41,
    m: usize,
    start_pos: usize,
    score: Seq<u32>,
    window_idx: Seq<i32>,
    window_topk: int,
    c: CompAttnCfg,
    ic: IndexerCfg,
    host: SharedRuntime,
)
    requires
        call_in_range(&attn.cfg, m as int, start_pos as int),
        c.ratio == w.role.ratio,
        c.ratio > 0,
        c.is_index_source == w.role.is_index_source,
        c.window == attn.cfg.window,
        ic.index_topk == attn.cfg.index_topk,
        ic.cand_topk_blocks == attn.cfg.cand_topk_blocks,
        ic.cand_block == attn.cfg.cand_block,
        host.topk_idxs@ == shared.topk_idxs@,
        host.topk == shared.topk,
        host.candidates@ == shared.candidates@,
    ensures
        ({
            let p: AttnPending = attn.pending_of(&w, &st, m, start_pos);
            let offset: usize = if start_pos == 0 {
                m
            } else {
                c.window
            };
            let req = index_request(
                m,
                start_pos,
                offset,
                c.ratio,
                ic,
                w.role.is_candidate_source,
                w.role.uses_candidates,
            );
            let selection: (Seq<i32>, usize) = (req.index_table(score, host.candidates@), req.topk() as usize);
            let attended: (Seq<i32>, usize) = attended_selection(
                c,
                (start_pos + m) / c.ratio as int,
                selection,
                host,
            );
            &&& attn.request_of(&w, p) == req
            &&& attn.attended(&w, &shared, p, score).0 == attended.0
            &&& attn.attended(&w, &shared, p, score).1 == attended.1
            &&& attn.attended_idx(&w, &shared, p, score, window_idx, window_topk) == merged_index(
                window_idx,
                window_topk,
                attended.0,
                attended.1 as int,
                m as int,
            )
        }),
{
    let p: AttnPending = attn.pending_of(&w, &st, m, start_pos);
    let req = attn.request_of(&w, p);
    let width: int = (start_pos + m) / c.ratio as int;
    lemma_prefill_split(start_pos + m, c.ratio as int);
    assert(0 <= req.topk() <= width);
}

/// The positions that an accepted call uploads fit into their workspaces.
pub proof fn lemma_positions_fit(attn: AttnV41, m: int, start_pos: int, ratio: int)
    requires
        attn.wf(),
        call_in_range(&attn.cfg, m, start_pos),
        0 < ratio,
    ensures
        ints_bytes(token_positions(start_pos, m, 1)).len() <= attn.cfg.layout_of().pos,
        ints_bytes(token_positions(start_pos, m, attn.cfg.n_heads as int)).len() <= attn.cfg.layout_of().head_pos,
        ints_bytes(token_positions(start_pos, m, attn.cfg.index_heads as int)).len() <= attn.cfg.layout_of().idx_pos,
        completes_group(m, start_pos, ratio) ==> ints_bytes(
            group_positions_of(completed_groups(m, start_pos, ratio), ratio, start_pos),
        ).len() <= attn.cfg.layout_of().grp_pos,
{
    let c = attn.cfg;
    let nh: int = c.n_heads as int;
    let nhi: int = c.index_heads as int;
    lemma_token_positions_len(start_pos, m, 1);
    lemma_token_positions_len(start_pos, m, nh);
    lemma_token_positions_len(start_pos, m, nhi);
    lemma_ints_bytes_len(token_positions(start_pos, m, 1));
    lemma_ints_bytes_len(token_positions(start_pos, m, nh));
    lemma_ints_bytes_len(token_positions(start_pos, m, nhi));
    lemma_mul_le(m, c.max_tokens as int, nh);
    lemma_mul_le(m, c.max_tokens as int, nhi);
    lemma_mul_le(0, c.max_tokens as int, nh);
    lemma_mul_le(0, c.max_tokens as int, nhi);
    if completes_group(m, start_pos, ratio) {
        lemma_groups_in_range(&c, m, start_pos, ratio);
        let groups: int = completed_groups(m, start_pos, ratio);
        lemma_ints_bytes_len(group_positions_of(groups, ratio, start_pos));
    }
}

/// The positions that an accepted call attends fit into their workspace: that
/// is what the bound on their number is for.
pub proof fn lemma_attended_fit(
    attn: AttnV41,
    w: AttnV41LayerWeights,
    st: AttnV41LayerState,
    shared: SharedV41,
    p: AttnPending,
    score: Seq<u8>,
    window_idx: Seq<i32>,
    window_topk: int,
)
    requires
        attn.finish_in_range(&w, &st, &shared, p, score, window_idx, window_topk),
        0 <= window_topk,
        attn.finish_error(&w, &st, &shared, p, words_of(score), window_topk) is None,
    ensures
        ints_bytes(
            attn.attended_idx(&w, &shared, p, words_of(score), window_idx, window_topk),
        ).len() <= attn.cfg.layout_of().idx_dev,
{
    let words: Seq<u32> = words_of(score);
    let c = attn.cfg;
    let attended: (Seq<i32>, int) = attn.attended(&w, &shared, p, words);
    let idx: Seq<i32> = attn.attended_idx(&w, &shared, p, words, window_idx, window_topk);
    let m: int = p.m as int;
    let top: int = window_topk + attended.1;
    lemma_ints_bytes_len(idx);
    if w.role.ratio > 0 {
        assert(attended.0.len() == m * attended.1);
        assert(0 <= attended.1) by {
            if AttnV41::selects(&w, m, p.start_pos as int) {
                lemma_prefill_split(p.start_pos + p.m, w.role.ratio as int);
            }
        }
        let f = |t: int| row(window_idx, t, window_topk) + row(attended.0, t, attended.1);
        assert forall|t: int| 0 <= t < m implies (#[trigger] f(t)).len() == top by {
            lemma_row_bounds(t, m, window_topk);
            lemma_row_bounds(t, m, attended.1);
        }
        lemma_concat_rows_len(m as nat, top, f);
    }
    assert(idx.len() == m * top);
    lemma_mul_le(top, c.window + c.index_topk, m);
    lemma_mul_le(m, c.max_tokens as int, c.window + c.index_topk);
}

impl AttnV41 {
    /// The last command of [`AttnV41::index_key_cmds`] puts a call's index keys
    /// into the cache behind the earlier ones.
    pub proof fn lemma_index_keys_go_behind_earlier(
        &self,
        mem: spec_fn(int) -> u8,
        wk: DevicePtr,
        k_norm: DevicePtr,
        cache: DevicePtr,
        m: int,
        start_pos: int,
        ratio: int,
    )
        requires
            self.wf(),
            0 < ratio,
            call_in_range(&self.cfg, m, start_pos),
            completes_group(m, start_pos, ratio),
            has_room(cache, (self.cfg.max_seq as int / ratio) * (self.cfg.index_hd * 2)),
        ensures
            ({
                let w: int = self.cfg.index_hd * 2;
                let n: int = (self.cfg.max_seq as int / ratio) * w;
                let groups: int = completed_groups(m, start_pos, ratio);
                region(
                    transferred(mem, self.index_key_cmds(wk, k_norm, cache, groups, start_pos, ratio).last()),
                    cache,
                    n,
                ) == spliced(region(mem, cache, n), (start_pos / ratio) * w, region(mem, self.buf.ik, groups * w))
            }),
    {
        let ihd: int = self.cfg.index_hd as int;
        let w: int = ihd * 2;
        let held: int = self.cfg.max_seq as int / ratio;
        let groups: int = completed_groups(m, start_pos, ratio);
        let first: int = start_pos / ratio;
        lemma_groups_in_range(&self.cfg, m, start_pos, ratio);
        lemma_mul_le(first + groups, held, w);
        lemma_mul_le(0, first, w);
        lemma_mul_le(0, groups, w);
        assert((first + groups) * w == first * w + groups * w) by (nonlinear_arith);
        assert(first * ihd * 2 == first * w && groups * ihd * 2 == groups * w) by (nonlinear_arith)
            requires
                w == ihd * 2,
        ;
        lemma_copy_splices(mem, self.buf.ik, cache, first * w, groups * w, held * w);
        let cmds: Seq<CommandView> = self.index_key_cmds(wk, k_norm, cache, groups, start_pos, ratio);
        assert(cmds.last() == CommandView::CopyD2d {
            src: self.buf.ik,
            dst: offset_by(cache, first * w),
            bytes: groups * w,
        });
    }
}

/// A state made for a layer's role has the room that its calls need.
pub proof fn lemma_state_has_room(c: &AttnV41Cfg, role: LayerRole, st: AttnV41LayerState)
    requires
        c.fits(),
        role.ratio > 0,
        at_least_1(role.ratio as int) * c.head_dim * 4 <= usize::MAX,
        st.roomy(AttnV41LayerState::layout_of(c, role)),
    ensures
        st.room_for(c, role.ratio as int),
{
    let ratio: int = role.ratio as int;
    let held: int = c.max_seq as int / ratio;
    lemma_state_fits(c, role);
    lemma_prefill_split(c.max_seq as int, ratio);
    lemma_mul_le(held, at_least_1(held), c.head_dim as int);
    lemma_mul_le(held, at_least_1(held), c.index_hd as int);
    lemma_mul_le(0, held, c.head_dim as int);
    lemma_mul_le(0, held, c.index_hd as int);
}

/// With the groups that it completes, a prefill or a decode of one position has
/// stored as many latents as there are compressed positions to attend; without
/// any, there are no more of those than before.
pub proof fn lemma_groups_reach_the_end(m: int, start_pos: int, ratio: int)
    requires
        0 < ratio,
        1 <= m,
        0 <= start_pos,
        start_pos == 0 || m == 1,
    ensures
        completes_group(m, start_pos, ratio) ==> start_pos / ratio + completed_groups(m, start_pos, ratio) == (
        start_pos + m) / ratio,
        !completes_group(m, start_pos, ratio) ==> start_pos / ratio == (start_pos + m) / ratio,
{
    lemma_prefill_split(m, ratio);
    assert(0int / ratio == 0) by (nonlinear_arith)
        requires
            0 < ratio,
    ;
    if ratio == 1 {
        assert(start_pos / 1 == start_pos && (start_pos + m) / 1 == start_pos + m);
    } else if start_pos == 0 {
        if m < ratio {
            lemma_fundamental_div_mod_converse(m, ratio, 0, m);
        }
    } else {
        let k: int = start_pos / ratio;
        let rem: int = start_pos % ratio;
        lemma_fundamental_div_mod(start_pos, ratio);
        lemma_mod_pos_bound(start_pos, ratio);
        assert(ratio * k == k * ratio && (k + 1) * ratio == k * ratio + ratio) by (nonlinear_arith);
        if rem + 1 < ratio {
            lemma_fundamental_div_mod_converse(start_pos + 1, ratio, k, rem + 1);
        } else {
            lemma_fundamental_div_mod_converse(start_pos + 1, ratio, k + 1, 0);
        }
    }
}

/// What a kv source publishes belongs together: its own latent cache, and how
/// many groups that cache holds. The count is that of the earlier calls until
/// the call's own latents are stored; with them it is the number of compressed
/// positions up to the call's end, whatever an earlier source published.
pub proof fn lemma_published_count(
    attn: AttnV41,
    w: AttnV41LayerWeights,
    st: AttnV41LayerState,
    shared: SharedV41,
    m: usize,
    start_pos: usize,
)
    requires
        attn.compresses(&w, &st, m as int, start_pos as int),
        start_pos == 0 || m == 1,
    ensures
        ({
            let ratio: int = w.role.ratio as int;
            let published: SharedV41 = attn.forward_shared(&w, &st, &shared, m, start_pos);
            let p: AttnPending = attn.pending_of(&w, &st, m, start_pos);
            &&& published.compress_kv == st.compress_kv
            &&& published.compress_len == start_pos as int / ratio
            &&& p.groups matches Some(groups) ==> start_pos as int / ratio + groups == (start_pos + m) / ratio
            &&& p.groups is None ==> published.compress_len == (start_pos + m) / ratio
        }),
{
    lemma_groups_reach_the_end(m as int, start_pos as int, w.role.ratio as int);
    if completes_group(m as int, start_pos as int, w.role.ratio as int) {
        lemma_groups_in_range(&attn.cfg, m as int, start_pos as int, w.role.ratio as int);
    }
}

/// Every compressed position that a layer selects is one of the rows that its
/// attention reads: behind the window rows, and in front of the end.
pub proof fn lemma_selected_rows_exist(
    attn: AttnV41,
    w: AttnV41LayerWeights,
    st: AttnV41LayerState,
    shared: SharedV41,
    p: AttnPending,
    score: Seq<u8>,
    window_idx: Seq<i32>,
    window_topk: int,
    t: int,
    j: int,
)
    requires
        attn.finish_in_range(&w, &st, &shared, p, score, window_idx, window_topk),
        AttnV41::selects(&w, p.m as int, p.start_pos as int),
        !AttnV41::mask_is_stale(&w, &shared, p),
        p.rows_a_len + (p.start_pos + p.m) / w.role.ratio as int <= i32::MAX,
        0 <= t < p.m,
        0 <= j < attn.attended(&w, &shared, p, words_of(score)).1,
    ensures
        ({
            let attended: (Seq<i32>, int) = attn.attended(&w, &shared, p, words_of(score));
            let entry: i32 = row(attended.0, t, attended.1)[j];
            entry == -1 || p.rows_a_len <= entry < p.rows_a_len + (p.start_pos + p.m) / w.role.ratio as int
        }),
{
    let req: IndexRequest = attn.request_of(&w, p);
    let words: Seq<u32> = words_of(score);
    let mask: Seq<bool> = shared.candidates@;
    let f = |q: int| req.index_row(words, mask, q);
    assert forall|q: int| 0 <= q < req.m implies (#[trigger] f(q)).len() == req.topk() by {
        lemma_index_row_len(req, words, mask, q);
    }
    lemma_concat_rows_row(req.m as nat, req.topk(), f, t);
    lemma_selected_positions_are_reachable(req, words, mask, t, j);
}

/// The groups of the output projection tile the heads: one behind the other,
/// without a rest.
pub proof fn lemma_groups_tile_the_heads(c: &AttnV41Cfg)
    requires
        c.supported(),
        c.groups > 0,
    ensures
        c.groups * c.group_width() == c.n_heads * c.head_dim,
{
    let heads: int = c.n_heads * c.head_dim;
    assert(c.head_dim * c.n_heads == heads) by (nonlinear_arith)
        requires
            heads == c.n_heads * c.head_dim,
    ;
    lemma_fundamental_div_mod(heads, c.groups as int);
}

/// The selection that a layer publishes is one that the layers below it accept
/// for the same call: it has as many positions per query as it says.
pub proof fn lemma_published_selection_is_whole(
    attn: AttnV41,
    w: AttnV41LayerWeights,
    st: AttnV41LayerState,
    shared: SharedV41,
    p: AttnPending,
    score: Seq<u8>,
    window_idx: Seq<i32>,
    window_topk: int,
)
    requires
        attn.finish_in_range(&w, &st, &shared, p, score, window_idx, window_topk),
        AttnV41::selects(&w, p.m as int, p.start_pos as int),
        !AttnV41::mask_is_stale(&w, &shared, p),
    ensures
        ({
            let attended: (Seq<i32>, int) = attn.attended(&w, &shared, p, words_of(score));
            attended.0.len() == p.m * attended.1
        }),
{
    lemma_index_table_len(attn.request_of(&w, p), words_of(score), shared.candidates@);
}

/// The mask that a candidate source publishes is one that the layers below it
/// accept for the same call, at the same ratio.
pub proof fn lemma_published_mask_is_fresh(
    attn: AttnV41,
    source: AttnV41LayerWeights,
    p: AttnPending,
    score: Seq<u32>,
    reader: AttnV41LayerWeights,
    shared: SharedV41,
    q: AttnPending,
)
    requires
        source.role.ratio > 0,
        reader.role.ratio == source.role.ratio,
        q.m == p.m,
        q.start_pos == p.start_pos,
        shared.candidates@ == attn.request_of(&source, p).published_candidates(score),
    ensures
        !AttnV41::mask_is_stale(&reader, &shared, q),
{
    let req: IndexRequest = attn.request_of(&source, p);
    let width: int = req.width();
    lemma_prefill_split(p.start_pos + p.m, source.role.ratio as int);
    let lines = |t: int| req.reachable(score, t);
    assert forall|t: int| 0 <= t < req.m implies (#[trigger] lines(t)).len() == width by {}
    let table: Seq<u32> = req.reachable_table(score);
    lemma_concat_rows_len(req.m as nat, width, lines);
    let f = |t: int|
        candidate_row(
            row(table, t, width),
            req.reaches()[t] as int,
            req.cand_topk_blocks as int,
            req.cand_block as int,
        );
    assert forall|t: int| 0 <= t < req.m implies (#[trigger] f(t)).len() == width by {
        lemma_row_bounds(t, req.m as int, width);
    }
    lemma_concat_rows_len(req.m as nat, width, f);
}

/// Entry `t * n + h` of a call's positions is the position of token `t`,
/// `start_pos + t`, for each of the `n` repetitions `h`.
pub proof fn lemma_token_positions_entries(start_pos: int, m: int, n: int, t: int, h: int)
    requires
        0 <= start_pos,
        start_pos + m <= i32::MAX,
        0 <= t < m,
        0 <= h < n,
    ensures
        0 <= t * n + h < token_positions(start_pos, m, n).len(),
        token_positions(start_pos, m, n)[t * n + h] == start_pos + t,
{
    let f = |t: int| Seq::new(n as nat, |h: int| (start_pos + t) as i32);
    assert forall|t: int| 0 <= t < m implies (#[trigger] f(t)).len() == n by {}
    lemma_token_positions_len(start_pos, m, n);
    lemma_concat_rows_row(m as nat, n, f, t);
    lemma_row_bounds(t, m, n);
    assert(row(token_positions(start_pos, m, n), t, n)[h] == f(t)[h]);
}

/// The latent that goes to row `r` of the cache is rotated to position
/// `r * ratio`, the first of its group: the `k`-th latent of a call to that of
/// row `start_pos / ratio + k`.
pub proof fn lemma_group_positions_entries(m: int, start_pos: int, ratio: int, k: int)
    requires
        0 < ratio,
        1 <= m,
        0 <= start_pos,
        start_pos + m <= i32::MAX,
        start_pos == 0 || m == 1,
        completes_group(m, start_pos, ratio),
        0 <= k < completed_groups(m, start_pos, ratio),
    ensures
        ({
            let positions: Seq<i32> = group_positions_of(completed_groups(m, start_pos, ratio), ratio, start_pos);
            &&& positions.len() == completed_groups(m, start_pos, ratio)
            &&& positions[k] == (start_pos / ratio + k) * ratio
            &&& (start_pos / ratio + k) * ratio + ratio <= start_pos + m
        }),
{
    let groups: int = completed_groups(m, start_pos, ratio);
    lemma_prefill_split(m, ratio);
    lemma_fundamental_div_mod(m, ratio);
    assert(0int / ratio == 0) by (nonlinear_arith)
        requires
            0 < ratio,
    ;
    if start_pos == 0 {
        if ratio == 1 {
            assert(m / 1 == m);
        }
        lemma_row_bounds(k, groups, ratio);
        assert(groups * ratio <= m);
    } else {
        let q: int = start_pos / ratio;
        let rem: int = start_pos % ratio;
        lemma_fundamental_div_mod(start_pos, ratio);
        lemma_mod_pos_bound(start_pos, ratio);
        assert(ratio * q == q * ratio) by (nonlinear_arith);
        if ratio > 1 && rem + 1 < ratio {
            lemma_fundamental_div_mod_converse(start_pos + 1, ratio, q, rem + 1);
        }
        assert(rem == ratio - 1);
        assert((q + 0) * ratio == q * ratio);
    }
}

/// What query `t` attends: first its window slots, then, on a compressed layer,
/// the compressed positions: its own selection on an index source, what the
/// last index source published on the others.
pub proof fn lemma_attended_entries(
    attn: AttnV41,
    w: AttnV41LayerWeights,
    st: AttnV41LayerState,
    shared: SharedV41,
    p: AttnPending,
    score: Seq<u8>,
    window_idx: Seq<i32>,
    window_topk: int,
    t: int,
    j: int,
)
    requires
        attn.finish_in_range(&w, &st, &shared, p, score, window_idx, window_topk),
        0 <= window_topk,
        attn.finish_error(&w, &st, &shared, p, words_of(score), window_topk) is None,
        0 <= t < p.m,
    ensures
        ({
            let words: Seq<u32> = words_of(score);
            let idx: Seq<i32> = attn.attended_idx(&w, &shared, p, words, window_idx, window_topk);
            let width: int = (p.start_pos + p.m) / w.role.ratio as int;
            let own: int = if attn.cfg.index_topk < width {
                attn.cfg.index_topk as int
            } else {
                width
            };
            let more: int = attn.attended(&w, &shared, p, words).1;
            let topk: int = window_topk + more;
            &&& w.role.ratio == 0 ==> more == 0
            &&& w.role.ratio > 0 && !w.role.is_index_source ==> more == shared.topk
            &&& w.role.ratio > 0 && w.role.is_index_source ==> more == own
            &&& idx.len() == p.m * topk
            &&& 0 <= j < window_topk ==> idx[t * topk + j] == window_idx[t * window_topk + j]
            &&& 0 <= j < more && !w.role.is_index_source ==> idx[t * topk + window_topk + j] == shared.topk_idxs@[t
                * shared.topk + j]
            &&& 0 <= j < more && w.role.is_index_source ==> idx[t * topk + window_topk + j] == attn.request_of(
                &w,
                p,
            ).index_row(words, shared.candidates@, t)[j]
        }),
{
    let words: Seq<u32> = words_of(score);
    let attended: (Seq<i32>, int) = attn.attended(&w, &shared, p, words);
    let idx: Seq<i32> = attn.attended_idx(&w, &shared, p, words, window_idx, window_topk);
    let m: int = p.m as int;
    let more: int = attended.1;
    let topk: int = window_topk + more;
    if w.role.ratio > 0 {
        lemma_prefill_split(p.start_pos + p.m, w.role.ratio as int);
        let f = |t: int| row(window_idx, t, window_topk) + row(attended.0, t, more);
        assert forall|t: int| 0 <= t < m implies (#[trigger] f(t)).len() == topk by {
            lemma_row_bounds(t, m, window_topk);
            lemma_row_bounds(t, m, more);
        }
        lemma_concat_rows_len(m as nat, topk, f);
        lemma_concat_rows_row(m as nat, topk, f, t);
        lemma_row_bounds(t, m, topk);
        lemma_row_bounds(t, m, window_topk);
        lemma_row_bounds(t, m, more);
        let line: Seq<i32> = row(idx, t, topk);
        assert(line == f(t));
        if 0 <= j < window_topk {
            assert(line[j] == row(window_idx, t, window_topk)[j]);
        }
        if 0 <= j < more {
            assert(line[window_topk + j] == row(attended.0, t, more)[j]);
            if w.role.is_index_source {
                let req: IndexRequest = attn.request_of(&w, p);
                let mask: Seq<bool> = shared.candidates@;
                let g = |q: int| req.index_row(words, mask, q);
                assert forall|q: int| 0 <= q < req.m implies (#[trigger] g(q)).len() == req.topk() by {
                    lemma_index_row_len(req, words, mask, q);
                }
                lemma_concat_rows_row(req.m as nat, req.topk(), g, t);
            }
        }
    } else {
        assert(m * topk == m * window_topk);
    }
}

/// When the first half of a call is accepted: its tokens are in the workspaces
/// and in the sequence, a kv source has its weights and state, and an index
/// source, once there is anything to score, its weights and keys to score.
pub proof fn lemma_forward_accepts(
    attn: AttnV41,
    w: AttnV41LayerWeights,
    st: AttnV41LayerState,
    shared: SharedV41,
    m: usize,
    start_pos: usize,
)
    ensures
        ({
            let ratio: int = w.role.ratio as int;
            let compresses: bool = ratio > 0 && w.role.is_kv_source;
            let scores: bool = ratio > 0 && w.role.is_index_source && (start_pos + m) / ratio > 0;
            let adds_keys: bool = AttnV41::groups_completed(&w, m as int, start_pos as int) is Some && st.index_k is Some;
            attn.forward_error(&w, &st, &shared, m, start_pos) is None <==> {
                &&& 1 <= m <= attn.cfg.max_tokens
                &&& start_pos + m <= attn.cfg.max_seq
                &&& compresses ==> w.comp is Some
                &&& compresses && ratio > 1 ==> (w.comp->0).gate is Some && st.comp_state is Some
                &&& scores ==> w.idx is Some
                &&& scores && adds_keys ==> (w.idx->0).wk is Some && (w.idx->0).k_norm is Some
                &&& scores && !adds_keys ==> shared.index_k is Some
            }
        }),
{
    let ratio: int = w.role.ratio as int;
    if ratio > 0 {
        lemma_prefill_split(start_pos + m, ratio);
        lemma_prefill_split(m as int, ratio);
    }
}

/// When the second half of a call is accepted: a mask that it respects is for
/// this call, its latents have a cache, there are compressed rows to attend, and
/// the positions are one table, no wider than the workspace and the kernel take.
pub proof fn lemma_finish_accepts(
    attn: AttnV41,
    w: AttnV41LayerWeights,
    st: AttnV41LayerState,
    shared: SharedV41,
    m: usize,
    start_pos: usize,
    score: Seq<u32>,
    window_topk: int,
)
    requires
        1 <= m,
        w.role.ratio > 0,
    ensures
        ({
            let ratio: int = w.role.ratio as int;
            let width: int = (start_pos + m) / ratio;
            let p: AttnPending = attn.pending_of(&w, &st, m, start_pos);
            let groups: bool = AttnV41::groups_completed(&w, m as int, start_pos as int) is Some;
            let respects: bool = w.role.is_index_source && width > 0 && !w.role.is_candidate_source
                && w.role.uses_candidates;
            let own: (Seq<i32>, int) = attn.attended(&w, &shared, p, score);
            attn.finish_error(&w, &st, &shared, p, score, window_topk) is None <==> {
                &&& respects ==> shared.candidates@.len() == m * width
                &&& groups ==> st.compress_kv is Some
                &&& !groups ==> shared.compress_kv is Some
                &&& w.role.is_index_source ==> own.0.len() == m * own.1
                &&& !w.role.is_index_source ==> shared.topk_idxs@.len() == m * shared.topk
                &&& window_topk + own.1 <= attn.cfg.window + attn.cfg.index_topk
                &&& window_topk + own.1 <= 2048
            }
        }),
{
    let ratio: int = w.role.ratio as int;
    lemma_prefill_split(start_pos + m, ratio);
    lemma_prefill_split(m as int, ratio);
}

/// What the first half of an accepted call publishes: a kv source its latent
/// cache with the groups that earlier calls left in it, an index source the keys
/// that it scored, everybody else nothing.
pub proof fn lemma_forward_publishes(
    attn: AttnV41,
    w: AttnV41LayerWeights,
    st: AttnV41LayerState,
    shared: SharedV41,
    m: usize,
    start_pos: usize,
)
    requires
        attn.forward_error(&w, &st, &shared, m, start_pos) is None,
    ensures
        ({
            let ratio: int = w.role.ratio as int;
            let after: SharedV41 = attn.forward_shared(&w, &st, &shared, m, start_pos);
            let groups: bool = AttnV41::groups_completed(&w, m as int, start_pos as int) is Some;
            &&& ratio > 0 && w.role.is_kv_source ==> after.compress_kv == st.compress_kv && after.compress_len
                == start_pos as int / ratio
            &&& !(ratio > 0 && w.role.is_kv_source) ==> after.compress_kv == shared.compress_kv
                && after.compress_len == shared.compress_len
            &&& after.index_k == if ratio > 0 && w.role.is_index_source && (start_pos + m) / ratio > 0 && groups
                && st.index_k is Some {
                st.index_k
            } else {
                shared.index_k
            }
            &&& after.topk_idxs@ == shared.topk_idxs@
            &&& after.topk == shared.topk
            &&& after.candidates@ == shared.candidates@
        }),
{
    let ratio: int = w.role.ratio as int;
    if ratio > 0 {
        lemma_prefill_split(start_pos + m, ratio);
        lemma_prefill_split(m as int, ratio);
    }
}

/// What is left to be finished: the window rows are the call's own on prefill,
/// the ring on decode, and there are scores to be read back, one f32 per token
/// and compressed position, exactly where the layer scores.
pub proof fn lemma_pending(attn: AttnV41, w: AttnV41LayerWeights, st: AttnV41LayerState, m: usize, start_pos: usize)
    requires
        attn.wf(),
        call_in_range(&attn.cfg, m as int, start_pos as int),
    ensures
        ({
            let ratio: int = w.role.ratio as int;
            let p: AttnPending = attn.pending_of(&w, &st, m, start_pos);
            let groups: Option<int> = AttnV41::groups_completed(&w, m as int, start_pos as int);
            &&& p.m == m && p.start_pos == start_pos
            &&& start_pos == 0 ==> p.rows_a == attn.buf.kv && p.rows_a_len == m
            &&& start_pos > 0 ==> p.rows_a == st.window && p.rows_a_len == attn.cfg.window
            &&& p.groups is Some <==> groups is Some
            &&& p.groups matches Some(g) ==> g == groups->0
            &&& p.score_bytes is Some <==> ratio > 0 && w.role.is_index_source && (start_pos + m) / ratio > 0
            &&& p.score_bytes matches Some(n) ==> n == m * ((start_pos + m) / ratio) * 4
        }),
{
    let ratio: int = w.role.ratio as int;
    if ratio > 0 {
        lemma_prefill_split(start_pos + m, ratio);
        lemma_prefill_split(m as int, ratio);
        lemma_score_fits(&attn.cfg, m as int, start_pos as int, ratio);
    }
}

/// Every workspace is a table with a row per token of the largest call: bf16
/// rows of the width that is written to them, f32 rows for what is pooled and
/// for the scores, one word per position that is uploaded.
pub proof fn lemma_workspace_sizes(c: AttnV41Cfg)
    requires
        c.fits(),
        c.groups > 0,
    ensures
        ({
            let l: AttnV41Layout = c.layout_of();
            let m: int = c.max_tokens as int;
            let heads: int = c.n_heads * c.head_dim;
            let hd: int = c.head_dim as int;
            let index_heads: int = c.index_heads * c.index_hd;
            &&& l.qr_raw == table_bytes(m, c.q_rank as int, 2)
            &&& l.qr == table_bytes(m, c.q_rank as int, 2)
            &&& l.q == table_bytes(m, heads, 2)
            &&& l.kv_raw == table_bytes(m, hd, 2)
            &&& l.kv == table_bytes(m, hd, 2)
            &&& l.o == table_bytes(m, heads, 2)
            &&& l.o_rot == table_bytes(m, heads, 2)
            &&& l.og == table_bytes(m, c.groups * c.o_rank, 2)
            &&& l.slice_in == table_bytes(m, heads / c.groups as int, 2)
            &&& l.slice_out == table_bytes(m, c.o_rank as int, 2)
            &&& l.out == table_bytes(m, c.dim as int, 2)
            &&& l.pos == table_bytes(m, 1, 4)
            &&& l.head_pos == table_bytes(m, c.n_heads as int, 4)
            &&& l.idx_pos == table_bytes(m, c.index_heads as int, 4)
            &&& l.grp_pos == table_bytes(m, 1, 4)
            &&& l.idx_dev == table_bytes(m, c.window + c.index_topk, 4)
            &&& l.ckv == table_bytes(m, hd, 4)
            &&& l.cscore == table_bytes(m, hd, 4)
            &&& l.pooled == table_bytes(m, hd, 4)
            &&& l.latent_raw == table_bytes(m, hd, 2)
            &&& l.latent == table_bytes(m, hd, 2)
            &&& l.ik_raw == table_bytes(m, c.index_hd as int, 2)
            &&& l.ik == table_bytes(m, c.index_hd as int, 2)
            &&& l.iq == table_bytes(m, index_heads, 2)
            &&& l.iw_raw == table_bytes(m, c.index_heads as int, 2)
            &&& l.iw == table_bytes(m, c.index_heads as int, 2)
            &&& l.score == table_bytes(m, c.max_seq as int, 4)
        }),
{
    let m: int = c.max_tokens as int;
    let gw: int = (c.n_heads * c.head_dim) / c.groups as int;
    lemma_mul_le(0, c.n_heads as int, c.head_dim as int);
    lemma_mul_le(0, c.index_heads as int, c.index_hd as int);
    lemma_mul_le(0, c.groups as int, c.o_rank as int);
    vstd::arithmetic::div_mod::lemma_div_pos_is_pos(c.n_heads * c.head_dim, c.groups as int);
    lemma_mul_le(0, m, c.q_rank as int);
    lemma_mul_le(0, m, c.n_heads * c.head_dim);
    lemma_mul_le(0, m, c.head_dim as int);
    lemma_mul_le(0, m, c.groups * c.o_rank);
    lemma_mul_le(0, m, gw);
    lemma_mul_le(0, m, c.o_rank as int);
    lemma_mul_le(0, m, c.dim as int);
    lemma_mul_le(0, m, c.n_heads as int);
    lemma_mul_le(0, m, c.index_heads as int);
    lemma_mul_le(0, m, c.window + c.index_topk);
    lemma_mul_le(0, m, c.index_hd as int);
    lemma_mul_le(0, m, c.index_heads * c.index_hd);
    lemma_mul_le(0, m, c.max_seq as int);
    assert(m * c.n_heads * c.head_dim == m * (c.n_heads * c.head_dim)) by (nonlinear_arith);
    assert(m * c.groups * c.o_rank == m * (c.groups * c.o_rank)) by (nonlinear_arith);
    assert(m * c.index_heads * c.index_hd == m * (c.index_heads * c.index_hd)) by (nonlinear_arith);
}

/// A layer's state: a ring of bf16 rows; of a kv source a partial group of f32
/// rows, and a bf16 latent and a bf16 index key per group of the longest
/// sequence, but at least one.
pub proof fn lemma_state_sizes(c: AttnV41Cfg, role: LayerRole)
    requires
        c.fits(),
        role.ratio > 0,
        role.ratio * c.head_dim * 4 <= usize::MAX,
    ensures
        ({
            let l = AttnV41LayerState::layout_of(&c, role);
            let held: int = if c.max_seq < role.ratio {
                1
            } else {
                c.max_seq as int / role.ratio as int
            };
            &&& l.window == 2 * (c.window * c.head_dim)
            &&& l.comp_state is Some <==> role.is_kv_source
            &&& l.compress_kv is Some <==> role.is_kv_source
            &&& l.index_k is Some <==> role.is_kv_source
            &&& l.comp_state matches Some(n) ==> n == 4 * (role.ratio * c.head_dim)
            &&& l.compress_kv matches Some(n) ==> n == 2 * (held * c.head_dim)
            &&& l.index_k matches Some(n) ==> n == 2 * (held * c.index_hd)
        }),
{
    let ratio: int = role.ratio as int;
    lemma_state_fits(&c, role);
    lemma_prefill_split(c.max_seq as int, ratio);
    if c.max_seq < role.ratio {
        lemma_fundamental_div_mod_converse(c.max_seq as int, ratio, 0, c.max_seq as int);
    } else {
        assert(c.max_seq as int / ratio >= 1) by (nonlinear_arith)
            requires
                c.max_seq >= ratio,
                ratio > 0,
        ;
    }
}

/// What the kernels can run: an even number of at most 512 rotated values, heads
/// that divide into the groups of the output projection, and heads of whole
/// quantiser blocks. A geometry that fails one of these is refused for the first
/// that it fails.
pub proof fn lemma_supported_geometries(c: AttnV41Cfg)
    requires
        c.groups > 0,
    ensures
        ({
            let rotates: bool = c.rope_dim % 2 == 0 && c.rope_dim <= 512;
            let divides: bool = (c.head_dim * c.n_heads) % c.groups as int == 0;
            let blocks: bool = c.head_dim % 32 == 0 && c.index_hd % 32 == 0;
            &&& c.supported() <==> rotates && divides && blocks
            &&& !rotates ==> c.refusal() == (AttnError::RopeDim { rope_dim: c.rope_dim })
            &&& rotates && !divides ==> c.refusal() == AttnError::HeadGroups
            &&& rotates && divides && !blocks ==> c.refusal() == AttnError::HeadBlocks
        }),
{
}

/// Word `i` of uploaded words is bytes `4 * i` to `4 * i + 4`, the lowest first;
/// a negative word is worth `2^32` more.
pub proof fn lemma_ints_bytes_entries(v: Seq<i32>, i: int)
    requires
        0 <= i < v.len(),
    ensures
        ints_bytes(v).subrange(4 * i, 4 * i + 4) == le32(v[i] as u32),
        v[i] >= 0 ==> (v[i] as u32) == v[i],
        v[i] < 0 ==> (v[i] as u32) == v[i] + 0x1_0000_0000,
{
    let f = |j: int| le32(v[j] as u32);
    assert forall|j: int| 0 <= j < v.len() implies (#[trigger] f(j)).len() == 4 by {}
    lemma_ints_bytes_len(v);
    lemma_concat_rows_row(v.len(), 4, f, i);
    assert(ints_bytes(v).subrange(4 * i, 4 * i + 4) =~= row(ints_bytes(v), i, 4));
    let x: i32 = v[i];
    assert(x < 0i32 ==> x as u32 == x + 0x1_0000_0000) by (bit_vector);
}

/// What a selection is asked for is the call's and the layer's own: its tokens,
/// its position and its ratio, offset behind the window rows, with the counts of
/// the geometry. The host's request says the same.
pub proof fn lemma_request(
    attn: AttnV41,
    w: AttnV41LayerWeights,
    st: AttnV41LayerState,
    m: usize,
    start_pos: usize,
    ic: IndexerCfg,
    offset: usize,
)
    ensures
        ({
            let r: IndexRequest = attn.request_of(&w, attn.pending_of(&w, &st, m, start_pos));
            &&& r.m == m
            &&& r.start_pos == start_pos
            &&& r.offset == if start_pos == 0 {
                m
            } else {
                attn.cfg.window
            }
            &&& r.ratio == w.role.ratio
            &&& r.index_topk == attn.cfg.index_topk
            &&& r.cand_topk_blocks == attn.cfg.cand_topk_blocks
            &&& r.cand_block == attn.cfg.cand_block
            &&& r.is_candidate_source == w.role.is_candidate_source
            &&& r.uses_candidates == w.role.uses_candidates
        }),
        ({
            let r: IndexRequest = index_request(
                m,
                start_pos,
                offset,
                w.role.ratio,
                ic,
                w.role.is_candidate_source,
                w.role.uses_candidates,
            );
            &&& r.m == m
            &&& r.start_pos == start_pos
            &&& r.offset == offset
            &&& r.ratio == w.role.ratio
            &&& r.index_topk == ic.index_topk
            &&& r.cand_topk_blocks == ic.cand_topk_blocks
            &&& r.cand_block == ic.cand_block
            &&& r.is_candidate_source == w.role.is_candidate_source
            &&& r.uses_candidates == w.role.uses_candidates
        }),
{
}

/// What an accepted call leaves published for the layers below it. A kv source
/// that completed groups: its own latent cache, with a latent for every
/// compressed position up to the end of the call. An index source with anything
/// to score: per query its own selection, of the top-k or of all positions there
/// are, and as a candidate source its mask, a row of all positions per query. What
/// a layer does not make itself stays as it was.
pub proof fn lemma_finish_publishes(
    attn: AttnV41,
    w: AttnV41LayerWeights,
    st: AttnV41LayerState,
    before: SharedV41,
    after: SharedV41,
    p: AttnPending,
    score: Seq<u8>,
    window_idx: Seq<i32>,
    window_topk: int,
    t: int,
)
    requires
        attn.finish_in_range(&w, &st, &before, p, score, window_idx, window_topk),
        0 <= window_topk,
        attn.finish_error(&w, &st, &before, p, words_of(score), window_topk) is None,
        attn.finish_publishes(&w, &st, before, p, words_of(score), after),
        p.start_pos == 0 || p.m == 1,
        w.role.ratio > 0,
        0 <= t < p.m,
    ensures
        ({
            let words: Seq<u32> = words_of(score);
            let ratio: int = w.role.ratio as int;
            let width: int = (p.start_pos + p.m) / ratio;
            let scores: bool = w.role.is_index_source && width > 0;
            let req: IndexRequest = attn.request_of(&w, p);
            let stores: bool = AttnV41::groups_completed(&w, p.m as int, p.start_pos as int) is Some;
            &&& after.index_k == before.index_k
            &&& stores ==> after.compress_kv == st.compress_kv && after.compress_len == width
            &&& !stores ==> after.compress_kv == before.compress_kv && after.compress_len == before.compress_len
            &&& scores ==> {
                &&& after.topk == if attn.cfg.index_topk < width {
                    attn.cfg.index_topk as int
                } else {
                    width
                }
                &&& after.topk_idxs@.len() == p.m * after.topk
                &&& row(after.topk_idxs@, t, after.topk as int) == req.index_row(words, before.candidates@, t)
            }
            &&& !scores ==> after.topk_idxs@ == before.topk_idxs@ && after.topk == before.topk
            &&& scores && w.role.is_candidate_source ==> {
                &&& after.cand_width == width
                &&& after.candidates@.len() == p.m * width
                &&& row(after.candidates@, t, width) == candidate_row(
                    req.reachable(words, t),
                    req.reach(t),
                    attn.cfg.cand_topk_blocks as int,
                    attn.cfg.cand_block as int,
                )
            }
            &&& !(scores && w.role.is_candidate_source) ==> after.candidates@ == before.candidates@
                && after.cand_width == before.cand_width
        }),
{
    let words: Seq<u32> = words_of(score);
    let ratio: int = w.role.ratio as int;
    let req: IndexRequest = attn.request_of(&w, p);
    lemma_prefill_split(p.start_pos + p.m, ratio);
    lemma_prefill_split(p.m as int, ratio);
    lemma_groups_reach_the_end(p.m as int, p.start_pos as int, ratio);
    if completes_group(p.m as int, p.start_pos as int, ratio) {
        lemma_groups_in_range(&attn.cfg, p.m as int, p.start_pos as int, ratio);
    }
    if w.role.is_index_source && (p.start_pos + p.m) / ratio > 0 {
        let mask: Seq<bool> = before.candidates@;
        let g = |q: int| req.index_row(words, mask, q);
        assert forall|q: int| 0 <= q < req.m implies (#[trigger] g(q)).len() == req.topk() by {
            lemma_index_row_len(req, words, mask, q);
        }
        lemma_concat_rows_len(req.m as nat, req.topk(), g);
        lemma_concat_rows_row(req.m as nat, req.topk(), g, t);
        lemma_published_candidates(req, words, t);
    }
}

} // verus!
