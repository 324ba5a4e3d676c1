//! What an attention layer computes: the values that its commands leave in the
//! workspaces, as expressions of its input, its weights and its positions.

use crate::attn::AttnPending;
use crate::attn_cfg::{
    AttnV41, AttnV41Buffers, AttnV41Cfg, AttnV41LayerState, AttnV41LayerWeights, CompressorWeightsGpu, IndexerWeightsGpu,
    SharedV41,
};
use crate::attn_steps::{
    call_in_range, gemmed, group_positions_of, lemma_groups_in_range, lemma_prefill_split, token_positions,
};
use crate::bytes::ints_bytes;
use crate::compress::{completed_groups, completes_group, FP4_BLOCK};
use crate::dataflow::{
    is_launch, lemma_div_up_covers, lemma_place_among, lemma_run_append, lemma_run_few, lemma_run_one, lemma_run_spares,
    place_among, put, run, step, writes_to, Value,
};
use crate::device::{has_room, offset_by, CommandView, DevicePtr, Kernel};
use crate::device_memory::disjoint;
use crate::rows::{concat_rows, lemma_mul_le, lemma_row_bounds};
use vstd::arithmetic::div_mod::{lemma_fundamental_div_mod, lemma_fundamental_div_mod_converse};
use vstd::prelude::*;

verus! {

impl AttnV41 {
    /// The number of a workspace, -1 of any other address.
    #[verifier::opaque]
    pub open spec fn place(&self, p: DevicePtr) -> int {
        place_among(self.buf.all(), p)
    }

    proof fn lemma_places(&self)
        requires
            self.buf.all().no_duplicates(),
        ensures
            self.place(self.buf.fc_plain) == 0,
            self.place(self.buf.fc_yarn) == 1,
            self.place(self.buf.qr_raw) == 2,
            self.place(self.buf.qr) == 3,
            self.place(self.buf.q) == 4,
            self.place(self.buf.kv_raw) == 5,
            self.place(self.buf.kv) == 6,
            self.place(self.buf.o) == 7,
            self.place(self.buf.o_rot) == 8,
            self.place(self.buf.og) == 9,
            self.place(self.buf.slice_in) == 10,
            self.place(self.buf.slice_out) == 11,
            self.place(self.buf.out) == 12,
            self.place(self.buf.pos) == 13,
            self.place(self.buf.head_pos) == 14,
            self.place(self.buf.idx_pos) == 15,
            self.place(self.buf.grp_pos) == 16,
            self.place(self.buf.idx_dev) == 17,
            self.place(self.buf.ckv) == 18,
            self.place(self.buf.cscore) == 19,
            self.place(self.buf.pooled) == 20,
            self.place(self.buf.latent_raw) == 21,
            self.place(self.buf.latent) == 22,
            self.place(self.buf.ik_raw) == 23,
            self.place(self.buf.ik) == 24,
            self.place(self.buf.iq) == 25,
            self.place(self.buf.iw_raw) == 26,
            self.place(self.buf.iw) == 27,
            self.place(self.buf.score) == 28,
    {
        reveal(AttnV41::place);
        let all: Seq<DevicePtr> = self.buf.all();
        assert forall|i: int| 0 <= i < all.len() implies place_among(all, #[trigger] all[i]) == i by {
            lemma_place_among(all, i);
        }
        assert(all[0] == self.buf.fc_plain && all[1] == self.buf.fc_yarn && all[2] == self.buf.qr_raw && all[3]
            == self.buf.qr && all[4] == self.buf.q && all[5] == self.buf.kv_raw && all[6] == self.buf.kv && all[7]
            == self.buf.o && all[8] == self.buf.o_rot && all[9] == self.buf.og);
        assert(all[10] == self.buf.slice_in && all[11] == self.buf.slice_out && all[12] == self.buf.out && all[13]
            == self.buf.pos && all[14] == self.buf.head_pos && all[15] == self.buf.idx_pos && all[16]
            == self.buf.grp_pos && all[17] == self.buf.idx_dev && all[18] == self.buf.ckv && all[19]
            == self.buf.cscore);
        assert(all[20] == self.buf.pooled && all[21] == self.buf.latent_raw && all[22] == self.buf.latent && all[23]
            == self.buf.ik_raw && all[24] == self.buf.ik && all[25] == self.buf.iq && all[26] == self.buf.iw_raw
            && all[27] == self.buf.iw && all[28] == self.buf.score);
    }

    /// The geometry has heads, and its workspaces are apart.
    pub open spec fn is_laid_out(&self) -> bool {
        &&& self.cfg.supported()
        &&& self.cfg.n_heads > 0
        &&& self.cfg.head_dim > 0
        &&& self.buf.all().no_duplicates()
    }

    /// The rotation table of a layer: with YaRN on compressed layers, plain on
    /// the others.
    pub open spec fn table_of(&self, w: &AttnV41LayerWeights, s: spec_fn(DevicePtr) -> Value) -> Value {
        if w.role.ratio == 0 {
            s(self.buf.fc_plain)
        } else {
            s(self.buf.fc_yarn)
        }
    }

    /// `rows` rows of `row_len` values at the positions `pos`, rotated there or
    /// back.
    pub open spec fn turned(&self, x: Value, pos: Seq<i32>, table: Value, rows: int, row_len: int, inverse: bool) -> Value {
        Value::Rotated {
            x: Box::new(x),
            pos: Box::new(Value::Data(ints_bytes(pos))),
            table: Box::new(table),
            rows: rows as u32,
            row_len: row_len as u32,
            rope_dim: self.cfg.rope_dim as u32,
            inverse,
        }
    }

    /// `rows` normed bf16 rows of `dim` values.
    pub open spec fn normed(&self, x: Value, w: Value, rows: int, dim: int) -> Value {
        Value::Normed {
            wide: false,
            x: Box::new(x),
            w: Box::new(w),
            rows: rows as u32,
            dim: dim as u32,
            eps: self.cfg.eps,
        }
    }

    /// The low-rank queries of `m` tokens: projected and normed.
    pub open spec fn low_rank_queries(&self, w: &AttnV41LayerWeights, x: DevicePtr, m: int, s: spec_fn(DevicePtr) -> Value) -> Value {
        self.normed(
            product(s(x), s(w.wq_a), m, self.cfg.q_rank as int, self.cfg.dim as int),
            s(w.q_norm),
            m,
            self.cfg.q_rank as int,
        )
    }

    /// The queries of `m` tokens from `start_pos` on: projected up from the
    /// low-rank ones, every head rotated to its token's position.
    pub open spec fn queries(
        &self,
        w: &AttnV41LayerWeights,
        x: DevicePtr,
        m: int,
        start_pos: int,
        s: spec_fn(DevicePtr) -> Value,
    ) -> Value {
        let nh: int = self.cfg.n_heads as int;
        let hd: int = self.cfg.head_dim as int;
        self.turned(
            product(self.low_rank_queries(w, x, m, s), s(w.wq_b), m, nh * hd, self.cfg.q_rank as int),
            token_positions(start_pos, m, nh),
            self.table_of(w, s),
            m * nh,
            hd,
            false,
        )
    }

    /// The latent rows of `m` tokens from `start_pos` on: projected, normed,
    /// rotated to the token's position, and through fp8.
    pub open spec fn latent_rows(
        &self,
        w: &AttnV41LayerWeights,
        x: DevicePtr,
        m: int,
        start_pos: int,
        s: spec_fn(DevicePtr) -> Value,
    ) -> Value {
        let hd: int = self.cfg.head_dim as int;
        Value::Fp8 {
            x: Box::new(
                self.turned(
                    self.normed(product(s(x), s(w.wkv), m, hd, self.cfg.dim as int), s(w.kv_norm), m, hd),
                    token_positions(start_pos, m, 1),
                    self.table_of(w, s),
                    m,
                    hd,
                    false,
                ),
            ),
            blocks: (m * hd / 32) as u32,
        }
    }

    /// None of these addresses is a workspace.
    pub open spec fn are_outside(&self, ps: Seq<DevicePtr>) -> bool {
        forall|i: int| 0 <= i < ps.len() ==> self.place(#[trigger] ps[i]) == -1
    }

    /// What a layer reads besides the workspaces and its state: the call's
    /// input and the weights.
    #[verifier::opaque]
    pub open spec fn inputs(w: &AttnV41LayerWeights, x: DevicePtr) -> Seq<DevicePtr> {
        seq![x, w.wq_a, w.q_norm, w.wq_b, w.wkv, w.kv_norm, w.sink, w.wo_b] + match w.comp {
            Some(c) => seq![
                c.kv,
                c.norm,
                match c.gate {
                    Some(gate) => gate,
                    None => c.kv,
                },
            ],
            None => seq![],
        } + match w.idx {
            Some(i) => seq![
                i.wq_b,
                i.weights_proj,
                match i.wk {
                    Some(wk) => wk,
                    None => i.wq_b,
                },
                match i.k_norm {
                    Some(k_norm) => k_norm,
                    None => i.wq_b,
                },
            ],
            None => seq![],
        }
    }

    /// The `n` bytes from `p` on hold none of a layer's inputs, and no
    /// workspace starts there.
    #[verifier::opaque]
    pub open spec fn is_apart(&self, p: DevicePtr, n: int, w: &AttnV41LayerWeights, x: DevicePtr) -> bool {
        forall|q: DevicePtr|
            #![trigger self.place(q)]
            #![trigger Self::inputs(w, x).contains(q)]
            within(q, p, n) ==> self.place(q) == -1 && !Self::inputs(w, x).contains(q)
    }

    /// A layer's state is apart from its inputs, from the workspaces, and the
    /// parts of the partial group from each other.
    pub open spec fn state_is_apart(&self, w: &AttnV41LayerWeights, st: &AttnV41LayerState, x: DevicePtr) -> bool {
        let c: AttnV41Cfg = self.cfg;
        let ratio: int = w.role.ratio as int;
        &&& self.is_apart(st.window, c.window * (c.head_dim * 2), w, x)
        &&& st.comp_state matches Some(g) ==> {
            &&& self.is_apart(g.0, ratio * (c.head_dim * 4), w, x)
            &&& self.is_apart(g.1, ratio * (c.head_dim * 4), w, x)
            &&& disjoint(g.0, ratio * (c.head_dim * 4), g.1, ratio * (c.head_dim * 4))
            &&& disjoint(g.0, ratio * (c.head_dim * 4), st.window, c.window * (c.head_dim * 2))
            &&& disjoint(g.1, ratio * (c.head_dim * 4), st.window, c.window * (c.head_dim * 2))
        }
        &&& st.index_k matches Some(k) ==> {
            &&& self.is_apart(k, (c.max_seq as int / ratio) * (c.index_hd * 2), w, x)
            &&& disjoint(k, (c.max_seq as int / ratio) * (c.index_hd * 2), st.window, c.window * (c.head_dim * 2))
        }
        &&& st.compress_kv matches Some(k) ==> {
            &&& self.is_apart(k, (c.max_seq as int / ratio) * (c.head_dim * 2), w, x)
            &&& disjoint(k, (c.max_seq as int / ratio) * (c.head_dim * 2), st.window, c.window * (c.head_dim * 2))
        }
    }

    proof fn lemma_apart(&self, p: DevicePtr, n: int, w: &AttnV41LayerWeights, x: DevicePtr)
        requires
            self.is_apart(p, n, w, x),
        ensures
            forall|q: DevicePtr| #[trigger] Self::inputs(w, x).contains(q) ==> !within(q, p, n),
            forall|q: DevicePtr| #[trigger] self.place(q) >= 0 ==> !within(q, p, n),
            0 < n ==> self.place(p) == -1,
    {
        reveal(AttnV41::is_apart);
        assert(0 < n ==> within(p, p, n));
    }

    proof fn lemma_inputs_outside(&self, w: &AttnV41LayerWeights, x: DevicePtr)
        requires
            self.are_outside(Self::inputs(w, x)),
        ensures
            forall|p: DevicePtr| #[trigger] Self::inputs(w, x).contains(p) ==> self.place(p) == -1,
            Self::inputs(w, x).contains(x),
            Self::inputs(w, x).contains(w.wq_a),
            Self::inputs(w, x).contains(w.q_norm),
            Self::inputs(w, x).contains(w.wq_b),
            Self::inputs(w, x).contains(w.wkv),
            Self::inputs(w, x).contains(w.kv_norm),
            Self::inputs(w, x).contains(w.sink),
            Self::inputs(w, x).contains(w.wo_b),
            w.comp matches Some(c) ==> {
                &&& Self::inputs(w, x).contains(c.kv)
                &&& Self::inputs(w, x).contains(c.norm)
                &&& c.gate matches Some(gate) ==> Self::inputs(w, x).contains(gate)
            },
            w.idx matches Some(i) ==> {
                &&& Self::inputs(w, x).contains(i.wq_b)
                &&& Self::inputs(w, x).contains(i.weights_proj)
                &&& i.wk matches Some(wk) ==> Self::inputs(w, x).contains(wk)
                &&& i.k_norm matches Some(k_norm) ==> Self::inputs(w, x).contains(k_norm)
            },
    {
        reveal(AttnV41::inputs);
        let ins: Seq<DevicePtr> = Self::inputs(w, x);
        assert(ins[0] == x && ins[1] == w.wq_a && ins[2] == w.q_norm && ins[3] == w.wq_b && ins[4] == w.wkv && ins[5]
            == w.kv_norm && ins[6] == w.sink && ins[7] == w.wo_b);
        let k: int = match w.comp {
            Some(c) => 11,
            None => 8,
        };
        if let Some(c) = w.comp {
            assert(ins[8] == c.kv && ins[9] == c.norm);
            if let Some(gate) = c.gate {
                assert(ins[10] == gate);
            }
        }
        if let Some(i) = w.idx {
            assert(ins[k] == i.wq_b && ins[k + 1] == i.weights_proj);
            if let Some(wk) = i.wk {
                assert(ins[k + 2] == wk);
            }
            if let Some(k_norm) = i.k_norm {
                assert(ins[k + 3] == k_norm);
            }
        }
    }

    proof fn lemma_rope_flow(
        &self,
        s: spec_fn(DevicePtr) -> Value,
        x: DevicePtr,
        pos: DevicePtr,
        rows: int,
        row_len: int,
        yarn: bool,
        inverse: bool,
    )
        requires
            self.cfg.supported(),
            rows != 0,
        ensures
            run(s, self.rope_cmds(x, pos, rows, row_len, yarn, inverse)) == put(
                s,
                x,
                Value::Rotated {
                    x: Box::new(s(x)),
                    pos: Box::new(s(pos)),
                    table: Box::new(
                        s(
                            if yarn {
                                self.buf.fc_yarn
                            } else {
                                self.buf.fc_plain
                            },
                        ),
                    ),
                    rows: rows as u32,
                    row_len: row_len as u32,
                    rope_dim: self.cfg.rope_dim as u32,
                    inverse,
                },
            ),
    {
        lemma_run_one(s, self.rope_cmds(x, pos, rows, row_len, yarn, inverse)[0]);
    }

    proof fn lemma_rmsnorm_flow(
        &self,
        s: spec_fn(DevicePtr) -> Value,
        wide: bool,
        x: DevicePtr,
        w: DevicePtr,
        out: DevicePtr,
        rows: int,
        dim: int,
    )
        requires
            rows != 0,
        ensures
            run(s, self.rmsnorm_cmds(wide, x, w, out, rows, dim)) == put(
                s,
                out,
                Value::Normed {
                    wide,
                    x: Box::new(s(x)),
                    w: Box::new(s(w)),
                    rows: rows as u32,
                    dim: dim as u32,
                    eps: self.cfg.eps,
                },
            ),
    {
        lemma_run_one(s, self.rmsnorm_cmds(wide, x, w, out, rows, dim)[0]);
    }

    proof fn lemma_act_quant_flow(&self, s: spec_fn(DevicePtr) -> Value, x: DevicePtr, n: int)
        requires
            n >= 32,
        ensures
            run(s, self.act_quant_cmds(x, n)) == put(s, x, Value::Fp8 { x: Box::new(s(x)), blocks: (n / 32) as u32 }),
    {
        lemma_div_up_covers((n / 32) as u32, 8);
        lemma_run_one(s, self.act_quant_cmds(x, n)[0]);
    }

    proof fn lemma_fp4_quant_flow(&self, s: spec_fn(DevicePtr) -> Value, x: DevicePtr, n: int, block: int, e4m3: bool)
        requires
            0 < block <= n,
        ensures
            run(s, self.fp4_quant_cmds(x, n, block, e4m3)) == put(
                s,
                x,
                Value::Fp4 { x: Box::new(s(x)), blocks: (n / block) as u32, block: block as u32, e4m3 },
            ),
    {
        assert(n / block > 0) by (nonlinear_arith)
            requires
                0 < block <= n,
        ;
        lemma_div_up_covers((n / block) as u32, 8);
        lemma_run_one(s, self.fp4_quant_cmds(x, n, block, e4m3)[0]);
    }

    proof fn lemma_projected(
        &self,
        w: &AttnV41LayerWeights,
        x: DevicePtr,
        m: int,
        start_pos: int,
        s: spec_fn(DevicePtr) -> Value,
    )
        requires
            self.is_laid_out(),
            self.are_outside(Self::inputs(w, x)),
            call_in_range(&self.cfg, m, start_pos),
        ensures
            ({
                let t: spec_fn(DevicePtr) -> Value = run(s, self.project_cmds(w, x, m, start_pos));
                &&& t(self.buf.qr) == self.low_rank_queries(w, x, m, s)
                &&& t(self.buf.q) == self.queries(w, x, m, start_pos, s)
                &&& t(self.buf.kv) == self.latent_rows(w, x, m, start_pos, s)
                &&& t(self.buf.head_pos) == Value::Data(
                    ints_bytes(token_positions(start_pos, m, self.cfg.n_heads as int)),
                )
                &&& forall|p: DevicePtr| self.place(p) < 2 ==> #[trigger] t(p) == s(p)
            }),
    {
        let c = self.cfg;
        let b: AttnV41Buffers = self.buf;
        let nh: int = c.n_heads as int;
        let hd: int = c.head_dim as int;
        let rank: int = c.q_rank as int;
        let dim: int = c.dim as int;
        let yarn: bool = w.role.ratio > 0;
        assert(m * nh > 0 && m * hd >= 32) by (nonlinear_arith)
            requires
                1 <= m,
                nh > 0,
                hd >= 32,
        ;
        let up1: CommandView = CommandView::Upload { data: ints_bytes(token_positions(start_pos, m, 1)), dst: b.pos };
        let up2: CommandView = CommandView::Upload {
            data: ints_bytes(token_positions(start_pos, m, nh)),
            dst: b.head_pos,
        };
        let g1: CommandView = gemmed(x, w.wq_a, b.qr_raw, m, rank, dim);
        let g2: CommandView = gemmed(b.qr, w.wq_b, b.q, m, nh * hd, rank);
        let g3: CommandView = gemmed(x, w.wkv, b.kv_raw, m, hd, dim);
        let n1: Seq<CommandView> = self.rmsnorm_cmds(false, b.qr_raw, w.q_norm, b.qr, m, rank);
        let r1: Seq<CommandView> = self.rope_cmds(b.q, b.head_pos, m * nh, hd, yarn, false);
        let n2: Seq<CommandView> = self.rmsnorm_cmds(false, b.kv_raw, w.kv_norm, b.kv, m, hd);
        let r2: Seq<CommandView> = self.rope_cmds(b.kv, b.pos, m, hd, yarn, false);
        let a2: Seq<CommandView> = self.act_quant_cmds(b.kv, m * hd);
        let c0: Seq<CommandView> = seq![up1, up2, g1];
        let t1: spec_fn(DevicePtr) -> Value = step(s, up1);
        let t2: spec_fn(DevicePtr) -> Value = step(t1, up2);
        let t3: spec_fn(DevicePtr) -> Value = step(t2, g1);
        lemma_run_few(s, up1, up2, g1, g1);
        lemma_run_append(s, c0, n1);
        let t4: spec_fn(DevicePtr) -> Value = run(t3, n1);
        lemma_run_append(s, c0 + n1, seq![g2]);
        lemma_run_one(t4, g2);
        let t5: spec_fn(DevicePtr) -> Value = step(t4, g2);
        lemma_run_append(s, c0 + n1 + seq![g2], r1);
        let t6: spec_fn(DevicePtr) -> Value = run(t5, r1);
        lemma_run_append(s, c0 + n1 + seq![g2] + r1, seq![g3]);
        lemma_run_one(t6, g3);
        let t7: spec_fn(DevicePtr) -> Value = step(t6, g3);
        lemma_run_append(s, c0 + n1 + seq![g2] + r1 + seq![g3], n2);
        let t8: spec_fn(DevicePtr) -> Value = run(t7, n2);
        lemma_run_append(s, c0 + n1 + seq![g2] + r1 + seq![g3] + n2, r2);
        let t9: spec_fn(DevicePtr) -> Value = run(t8, r2);
        lemma_run_append(s, c0 + n1 + seq![g2] + r1 + seq![g3] + n2 + r2, a2);
        let t10: spec_fn(DevicePtr) -> Value = run(t9, a2);
        lemma_run_append(s, c0 + n1 + seq![g2] + r1 + seq![g3] + n2 + r2 + a2, seq![CommandView::Synchronize]);
        lemma_run_one(t10, CommandView::Synchronize);
        let t: spec_fn(DevicePtr) -> Value = run(s, self.project_cmds(w, x, m, start_pos));
        assert(run(s, c0) == t3);
        assert(self.project_cmds(w, x, m, start_pos) == c0 + n1 + seq![g2] + r1 + seq![g3] + n2 + r2 + a2 + seq![
            CommandView::Synchronize,
        ]);
        assert(t == t10);
        self.lemma_rmsnorm_flow(t3, false, b.qr_raw, w.q_norm, b.qr, m, rank);
        self.lemma_rope_flow(t5, b.q, b.head_pos, m * nh, hd, yarn, false);
        self.lemma_rmsnorm_flow(t7, false, b.kv_raw, w.kv_norm, b.kv, m, hd);
        self.lemma_rope_flow(t8, b.kv, b.pos, m, hd, yarn, false);
        self.lemma_act_quant_flow(t9, b.kv, m * hd);
        self.lemma_places();
        self.lemma_inputs_outside(w, x);
        assert(self.place(x) == -1 && self.place(w.wq_a) == -1 && self.place(w.q_norm) == -1 && self.place(w.wq_b)
            == -1 && self.place(w.wkv) == -1 && self.place(w.kv_norm) == -1);
        assert(t3(b.qr_raw) == product(s(x), s(w.wq_a), m, rank, dim));
        assert(t4(b.qr) == self.low_rank_queries(w, x, m, s));
        assert(t6(b.q) == self.queries(w, x, m, start_pos, s));
        assert(t8(b.kv) == self.normed(product(s(x), s(w.wkv), m, hd, dim), s(w.kv_norm), m, hd));
        assert(t10(b.kv) == self.latent_rows(w, x, m, start_pos, s));
    }
}

impl AttnV41 {
    proof fn lemma_window_frame(&self, s: spec_fn(DevicePtr) -> Value, window: DevicePtr, m: int, start_pos: int)
        requires
            self.cfg.window > 0,
            self.cfg.head_dim > 0,
            call_in_range(&self.cfg, m, start_pos),
            has_room(window, self.cfg.window * (self.cfg.head_dim * 2)),
        ensures
            forall|p: DevicePtr|
                !within(p, window, self.cfg.window * (self.cfg.head_dim * 2)) ==> #[trigger] run(
                    s,
                    self.window_cmds(window, m, start_pos),
                )(p) == s(p),
    {
        let win: int = self.cfg.window as int;
        let row: int = self.cfg.head_dim * 2;
        let cmds: Seq<CommandView> = self.window_cmds(window, m, start_pos);
        lemma_mul_le(1, win, row);
        if start_pos == 0 && m <= win {
            lemma_run_one(s, cmds[0]);
            assert(cmds =~= seq![cmds[0]]);
        } else if start_pos == 0 {
            let cutoff: int = m % win;
            lemma_row_bounds(cutoff, win, row);
            lemma_run_few(s, cmds[0], cmds[1], cmds[1], cmds[1]);
            assert(cmds =~= seq![cmds[0], cmds[1]]);
        } else {
            let slot: int = start_pos % win;
            lemma_row_bounds(slot, win, row);
            lemma_run_one(s, cmds[0]);
            assert(cmds =~= seq![cmds[0]]);
        }
    }

    proof fn lemma_partial_group_frame(
        &self,
        s: spec_fn(DevicePtr) -> Value,
        kv_state: DevicePtr,
        score_state: DevicePtr,
        m: int,
        start_pos: int,
        ratio: int,
    )
        requires
            1 < ratio,
            self.cfg.head_dim > 0,
            call_in_range(&self.cfg, m, start_pos),
            has_room(kv_state, ratio * (self.cfg.head_dim * 4)),
            has_room(score_state, ratio * (self.cfg.head_dim * 4)),
            disjoint(kv_state, ratio * (self.cfg.head_dim * 4), score_state, ratio * (self.cfg.head_dim * 4)),
        ensures
            ({
                let n: int = ratio * (self.cfg.head_dim * 4);
                let t: spec_fn(DevicePtr) -> Value = run(
                    s,
                    self.partial_group_cmds(kv_state, score_state, m, start_pos, ratio),
                );
                &&& forall|p: DevicePtr|
                    !within(p, kv_state, n) && !within(p, score_state, n) ==> #[trigger] t(p) == s(p)
                &&& start_pos != 0 && (start_pos + 1) % ratio == 0 ==> t(kv_state) == s(kv_state) && t(score_state) == s(
                    score_state,
                )
            }),
    {
        let row: int = self.cfg.head_dim * 4;
        let n: int = ratio * row;
        let cmds: Seq<CommandView> = self.partial_group_cmds(kv_state, score_state, m, start_pos, ratio);
        lemma_mul_le(1, ratio, row);
        lemma_prefill_split(m, ratio);
        lemma_prefill_split(start_pos, ratio);
        if start_pos == 0 && m % ratio == 0 {
            lemma_run_one(s, CommandView::Synchronize);
        } else {
            lemma_run_few(s, cmds[0], cmds[1], cmds[2], cmds[2]);
            assert(cmds =~= seq![cmds[0], cmds[1], cmds[2]]);
            if start_pos != 0 {
                let slot: int = start_pos % ratio;
                lemma_row_bounds(slot, ratio, row);
                if (start_pos + 1) % ratio == 0 {
                    lemma_fundamental_div_mod(start_pos, ratio);
                    if slot + 1 < ratio {
                        lemma_fundamental_div_mod_converse(start_pos + 1, ratio, start_pos / ratio, slot + 1);
                    }
                    lemma_mul_le(1, slot, row);
                }
            }
        }
    }

    /// A call of a kv source completes groups, and how many.
    pub open spec fn groups_completed(w: &AttnV41LayerWeights, m: int, start_pos: int) -> Option<int> {
        let ratio: int = w.role.ratio as int;
        if ratio == 0 || !w.role.is_kv_source {
            None
        } else if ratio == 1 {
            Some(m)
        } else if start_pos == 0 && m >= ratio {
            Some(m / ratio)
        } else if start_pos > 0 && (start_pos + 1) % ratio == 0 {
            Some(1int)
        } else {
            None
        }
    }

    /// The latents of the groups that a call completes, before their rotation:
    /// at ratio 1 a projection of every token, above that the groups' rows
    /// pooled by their scores, a prefill's own rows or the partial group's;
    /// normed.
    pub open spec fn latents(
        &self,
        w: &AttnV41LayerWeights,
        st: &AttnV41LayerState,
        x: DevicePtr,
        m: int,
        start_pos: int,
        s: spec_fn(DevicePtr) -> Value,
    ) -> Value {
        let comp: CompressorWeightsGpu = w.comp->0;
        let hd: int = self.cfg.head_dim as int;
        let dim: int = self.cfg.dim as int;
        let groups: int = Self::groups_completed(w, m, start_pos)->0;
        if w.role.ratio == 1 {
            self.normed(product(s(x), s(comp.kv), m, hd, dim), s(comp.norm), m, hd)
        } else {
            let (kv, score): (Value, Value) = if start_pos == 0 {
                (product_f32(s(x), s(comp.kv), m, hd, dim), product_f32(s(x), s(comp.gate->0), m, hd, dim))
            } else {
                (s((st.comp_state->0).0), s((st.comp_state->0).1))
            };
            Value::Normed {
                wide: true,
                x: Box::new(
                    Value::Pooled {
                        kv: Box::new(kv),
                        score: Box::new(score),
                        groups: groups as u32,
                        ratio: w.role.ratio as u32,
                        hd: hd as u32,
                    },
                ),
                w: Box::new(s(comp.norm)),
                rows: groups as u32,
                dim: hd as u32,
                eps: self.cfg.eps,
            }
        }
    }

    proof fn lemma_gemm_f32_flow(&self, s: spec_fn(DevicePtr) -> Value, x: DevicePtr, w: DevicePtr, out: DevicePtr, m: int)
        ensures
            step(s, self.gemm_f32_cmd(x, w, out, m)) == put(
                s,
                out,
                product_f32(s(x), s(w), m, self.cfg.head_dim as int, self.cfg.dim as int),
            ),
    {
        lemma_div_up_covers(self.cfg.head_dim as u32, 16);
        lemma_div_up_covers(m as u32, 16);
    }

    proof fn lemma_pool_flow(
        &self,
        s: spec_fn(DevicePtr) -> Value,
        norm: DevicePtr,
        kv_state: DevicePtr,
        score_state: DevicePtr,
        m: int,
        start_pos: int,
        ratio: int,
    )
        requires
            1 < ratio,
            call_in_range(&self.cfg, m, start_pos),
            self.buf.all().no_duplicates(),
            self.place(norm) == -1,
        ensures
            ({
                let t: spec_fn(DevicePtr) -> Value = run(
                    s,
                    self.pool_cmds(norm, kv_state, score_state, m, start_pos, ratio),
                );
                let (kv, score): (DevicePtr, DevicePtr) = if start_pos == 0 {
                    (self.buf.ckv, self.buf.cscore)
                } else {
                    (kv_state, score_state)
                };
                let groups: int = if start_pos == 0 {
                    m / ratio
                } else {
                    1
                };
                &&& completes_group(m, start_pos, ratio) ==> t(self.buf.latent) == (Value::Normed {
                    wide: true,
                    x: Box::new(
                        Value::Pooled {
                            kv: Box::new(s(kv)),
                            score: Box::new(s(score)),
                            groups: groups as u32,
                            ratio: ratio as u32,
                            hd: self.cfg.head_dim as u32,
                        },
                    ),
                    w: Box::new(s(norm)),
                    rows: groups as u32,
                    dim: self.cfg.head_dim as u32,
                    eps: self.cfg.eps,
                })
                &&& forall|p: DevicePtr| self.place(p) < 20 ==> #[trigger] t(p) == s(p)
            }),
    {
        let b: AttnV41Buffers = self.buf;
        let hd: int = self.cfg.head_dim as int;
        let pool: Seq<CommandView> = self.pool_cmds(norm, kv_state, score_state, m, start_pos, ratio);
        self.lemma_places();
        lemma_prefill_split(m, ratio);
        if completes_group(m, start_pos, ratio) {
            let groups: int = completed_groups(m, start_pos, ratio);
            lemma_groups_in_range(&self.cfg, m, start_pos, ratio);
            let n: Seq<CommandView> = self.rmsnorm_cmds(true, b.pooled, norm, b.latent, groups, hd);
            lemma_run_append(s, seq![pool[0]], n);
            lemma_run_one(s, pool[0]);
            assert(pool =~= seq![pool[0]] + n);
            self.lemma_rmsnorm_flow(step(s, pool[0]), true, b.pooled, norm, b.latent, groups, hd);
        } else {
            lemma_run_one(s, CommandView::Synchronize);
        }
    }

    /// The rows that a call above ratio 1 adds to its group, in f32.
    pub open spec fn group_rows(&self, w: &AttnV41LayerWeights, x: DevicePtr, m: int, s: spec_fn(DevicePtr) -> Value) -> Value {
        product_f32(s(x), s((w.comp->0).kv), m, self.cfg.head_dim as int, self.cfg.dim as int)
    }

    /// The scores of those rows.
    pub open spec fn group_scores(&self, w: &AttnV41LayerWeights, x: DevicePtr, m: int, s: spec_fn(DevicePtr) -> Value) -> Value {
        product_f32(s(x), s((w.comp->0).gate->0), m, self.cfg.head_dim as int, self.cfg.dim as int)
    }

    proof fn lemma_compressed(
        &self,
        w: &AttnV41LayerWeights,
        st: &AttnV41LayerState,
        x: DevicePtr,
        m: int,
        start_pos: int,
        s: spec_fn(DevicePtr) -> Value,
    )
        requires
            self.is_laid_out(),
            self.are_outside(Self::inputs(w, x)),
            self.state_is_apart(w, st, x),
            st.room_for(&self.cfg, w.role.ratio as int),
            self.compresses(w, st, m, start_pos),
        ensures
            ({
                let t: spec_fn(DevicePtr) -> Value = run(s, self.compressor_cmds(w, st, x, m, start_pos));
                &&& Self::groups_completed(w, m, start_pos) is Some ==> t(self.buf.latent) == self.latents(
                    w,
                    st,
                    x,
                    m,
                    start_pos,
                    s,
                )
                &&& w.role.ratio > 1 ==> t(self.buf.ckv) == self.group_rows(w, x, m, s)
                &&& w.role.ratio > 1 ==> t(self.buf.cscore) == self.group_scores(w, x, m, s)
                &&& forall|p: DevicePtr| #[trigger] Self::inputs(w, x).contains(p) ==> t(p) == s(p)
                &&& forall|p: DevicePtr| 0 <= self.place(p) < 18 ==> #[trigger] t(p) == s(p)
            }),
    {
        let b: AttnV41Buffers = self.buf;
        let comp: CompressorWeightsGpu = w.comp->0;
        let hd: int = self.cfg.head_dim as int;
        let dim: int = self.cfg.dim as int;
        let ratio: int = w.role.ratio as int;
        self.lemma_places();
        self.lemma_inputs_outside(w, x);
        if ratio == 1 {
            let g: CommandView = gemmed(x, comp.kv, b.latent_raw, m, hd, dim);
            let n: Seq<CommandView> = self.rmsnorm_cmds(false, b.latent_raw, comp.norm, b.latent, m, hd);
            lemma_run_append(s, seq![g], n);
            lemma_run_one(s, g);
            self.lemma_rmsnorm_flow(step(s, g), false, b.latent_raw, comp.norm, b.latent, m, hd);
        } else {
            let (kv_state, score_state) = st.comp_state->0;
            let g1: CommandView = self.gemm_f32_cmd(x, comp.kv, b.ckv, m);
            let g2: CommandView = self.gemm_f32_cmd(x, comp.gate->0, b.cscore, m);
            let part: Seq<CommandView> = self.partial_group_cmds(kv_state, score_state, m, start_pos, ratio);
            let pool: Seq<CommandView> = self.pool_cmds(comp.norm, kv_state, score_state, m, start_pos, ratio);
            let t2: spec_fn(DevicePtr) -> Value = step(step(s, g1), g2);
            let t3: spec_fn(DevicePtr) -> Value = run(t2, part);
            lemma_run_few(s, g1, g2, g2, g2);
            lemma_run_append(s, seq![g1, g2], part);
            lemma_run_append(s, seq![g1, g2] + part, pool);
            assert(ratio * hd * 4 == ratio * (hd * 4)) by (nonlinear_arith);
            lemma_mul_le(1, ratio, hd * 4);
            self.lemma_apart(kv_state, ratio * (hd * 4), w, x);
            self.lemma_apart(score_state, ratio * (hd * 4), w, x);
            self.lemma_gemm_f32_flow(s, x, comp.kv, b.ckv, m);
            self.lemma_gemm_f32_flow(step(s, g1), x, comp.gate->0, b.cscore, m);
            self.lemma_partial_group_frame(t2, kv_state, score_state, m, start_pos, ratio);
            self.lemma_pool_flow(t3, comp.norm, kv_state, score_state, m, start_pos, ratio);
            assert(t3(b.ckv) == self.group_rows(w, x, m, s));
            assert(t3(b.cscore) == self.group_scores(w, x, m, s));
        }
    }
}

impl AttnV41 {
    /// The index keys of `groups` latents: projected, normed, rotated to the
    /// first position of their group, and through fp4.
    pub open spec fn index_key_rows(
        &self,
        latent: Value,
        wk: Value,
        k_norm: Value,
        yarn: Value,
        groups: int,
        start_pos: int,
        ratio: int,
    ) -> Value {
        let ihd: int = self.cfg.index_hd as int;
        Value::Fp4 {
            x: Box::new(
                self.turned(
                    self.normed(product(latent, wk, groups, ihd, self.cfg.head_dim as int), k_norm, groups, ihd),
                    group_positions_of(groups, ratio, start_pos),
                    yarn,
                    groups,
                    ihd,
                    false,
                ),
            ),
            blocks: (groups * ihd / 32) as u32,
            block: 32,
            e4m3: false,
        }
    }

    proof fn lemma_keyed(
        &self,
        wk: DevicePtr,
        k_norm: DevicePtr,
        cache: DevicePtr,
        groups: int,
        start_pos: int,
        ratio: int,
        s: spec_fn(DevicePtr) -> Value,
    )
        requires
            self.is_laid_out(),
            self.cfg.index_hd > 0,
            0 < groups,
            0 < ratio,
            0 <= start_pos,
            self.place(wk) == -1,
            self.place(k_norm) == -1,
            start_pos / ratio < self.cfg.max_seq as int / ratio,
            has_room(cache, (self.cfg.max_seq as int / ratio) * (self.cfg.index_hd * 2)),
        ensures
            ({
                let t: spec_fn(DevicePtr) -> Value = run(
                    s,
                    self.index_key_cmds(wk, k_norm, cache, groups, start_pos, ratio),
                );
                &&& !within(self.buf.ik, cache, (self.cfg.max_seq as int / ratio) * (self.cfg.index_hd * 2))
                    ==> t(self.buf.ik) == self.index_key_rows(
                    s(self.buf.latent),
                    s(wk),
                    s(k_norm),
                    s(self.buf.fc_yarn),
                    groups,
                    start_pos,
                    ratio,
                )
                &&& forall|p: DevicePtr|
                    !within(p, cache, (self.cfg.max_seq as int / ratio) * (self.cfg.index_hd * 2)) && (self.place(p)
                        < 16 || 17 <= self.place(p) <= 22) ==> #[trigger] t(p) == s(p)
                &&& !within(self.buf.ik, cache, (self.cfg.max_seq as int / ratio) * (self.cfg.index_hd * 2)) ==> t(
                    offset_by(cache, (start_pos / ratio) * (self.cfg.index_hd * 2)),
                ) == Value::Copied { of: Box::new(t(self.buf.ik)), bytes: groups * (self.cfg.index_hd * 2) }
            }),
    {
        let b: AttnV41Buffers = self.buf;
        let ihd: int = self.cfg.index_hd as int;
        let held: int = self.cfg.max_seq as int / ratio;
        let first: int = start_pos / ratio;
        let g: CommandView = gemmed(b.latent, wk, b.ik_raw, groups, ihd, self.cfg.head_dim as int);
        let n: Seq<CommandView> = self.rmsnorm_cmds(false, b.ik_raw, k_norm, b.ik, groups, ihd);
        let up: CommandView = CommandView::Upload {
            data: ints_bytes(group_positions_of(groups, ratio, start_pos)),
            dst: b.grp_pos,
        };
        let r: Seq<CommandView> = self.rope_cmds(b.ik, b.grp_pos, groups, ihd, true, false);
        let f: Seq<CommandView> = self.fp4_quant_cmds(b.ik, groups * ihd, FP4_BLOCK as int, false);
        let copy: CommandView = CommandView::CopyD2d {
            src: b.ik,
            dst: offset_by(cache, first * ihd * 2),
            bytes: groups * ihd * 2,
        };
        let t1: spec_fn(DevicePtr) -> Value = step(s, g);
        let t2: spec_fn(DevicePtr) -> Value = run(t1, n);
        let t3: spec_fn(DevicePtr) -> Value = step(t2, up);
        let t4: spec_fn(DevicePtr) -> Value = run(t3, r);
        let t5: spec_fn(DevicePtr) -> Value = run(t4, f);
        lemma_run_one(s, g);
        lemma_run_append(s, seq![g], n);
        lemma_run_append(s, seq![g] + n, seq![up]);
        lemma_run_one(t2, up);
        lemma_run_append(s, seq![g] + n + seq![up], r);
        lemma_run_append(s, seq![g] + n + seq![up] + r, f);
        lemma_run_append(s, seq![g] + n + seq![up] + r + f, seq![CommandView::Synchronize, copy]);
        lemma_run_few(t5, CommandView::Synchronize, copy, copy, copy);
        assert(self.index_key_cmds(wk, k_norm, cache, groups, start_pos, ratio) == seq![g] + n + seq![up] + r + f + seq![
            CommandView::Synchronize,
            copy,
        ]);
        lemma_mul_le(1, groups, ihd);
        self.lemma_rmsnorm_flow(t1, false, b.ik_raw, k_norm, b.ik, groups, ihd);
        self.lemma_rope_flow(t3, b.ik, b.grp_pos, groups, ihd, true, false);
        self.lemma_fp4_quant_flow(t4, b.ik, groups * ihd, FP4_BLOCK as int, false);
        self.lemma_places();
        lemma_prefill_split(start_pos, ratio);
        lemma_row_bounds(first, held, ihd * 2);
        assert(first * ihd * 2 == first * (ihd * 2) && groups * ihd * 2 == groups * (ihd * 2)) by (nonlinear_arith);
        assert(within(offset_by(cache, first * ihd * 2), cache, held * (ihd * 2)));
        assert(t5(b.ik) == self.index_key_rows(s(b.latent), s(wk), s(k_norm), s(b.fc_yarn), groups, start_pos, ratio));
    }

    /// The scores of all compressed positions: the index queries, projected up
    /// from the low-rank ones, every head rotated to its token's position with
    /// the keys' table and through fp4, against the keys; the heads weighed by
    /// a projection of the input.
    pub open spec fn index_scores(
        &self,
        qr: Value,
        iw: IndexerWeightsGpu,
        keys: DevicePtr,
        x: DevicePtr,
        m: int,
        start_pos: int,
        ratio: int,
        s: spec_fn(DevicePtr) -> Value,
    ) -> Value {
        let nhi: int = self.cfg.index_heads as int;
        let ihd: int = self.cfg.index_hd as int;
        Value::Scores {
            q: Box::new(
                Value::Fp4 {
                    x: Box::new(
                        self.turned(
                            product(qr, s(iw.wq_b), m, nhi * ihd, self.cfg.q_rank as int),
                            token_positions(start_pos, m, nhi),
                            s(self.buf.fc_yarn),
                            m * nhi,
                            ihd,
                            false,
                        ),
                    ),
                    blocks: (m * nhi * ihd / 32) as u32,
                    block: 32,
                    e4m3: false,
                },
            ),
            keys,
            weights: Box::new(
                Value::Scaled {
                    x: Box::new(product(s(x), s(iw.weights_proj), m, nhi, self.cfg.dim as int)),
                    n: (m * nhi) as u32,
                    by: self.index_scale,
                },
            ),
            queries: m as u32,
            width: ((start_pos + m) / ratio) as u32,
            heads: nhi as u32,
            hd: ihd as u32,
        }
    }

    proof fn lemma_scored(
        &self,
        iw: IndexerWeightsGpu,
        keys: DevicePtr,
        x: DevicePtr,
        m: int,
        start_pos: int,
        ratio: int,
        s: spec_fn(DevicePtr) -> Value,
    )
        requires
            self.is_laid_out(),
            self.cfg.index_hd > 0,
            self.cfg.index_heads > 0,
            0 < ratio,
            call_in_range(&self.cfg, m, start_pos),
            self.place(x) == -1,
            self.place(iw.wq_b) == -1,
            self.place(iw.weights_proj) == -1,
        ensures
            ({
                let t: spec_fn(DevicePtr) -> Value = run(
                    s,
                    self.index_score_cmds(iw, keys, x, m, start_pos, ratio),
                );
                &&& t(self.buf.score) == self.index_scores(s(self.buf.qr), iw, keys, x, m, start_pos, ratio, s)
                &&& forall|p: DevicePtr|
                    self.place(p) < 15 || 16 <= self.place(p) < 25 ==> #[trigger] t(p) == s(p)
            }),
    {
        let b: AttnV41Buffers = self.buf;
        let nhi: int = self.cfg.index_heads as int;
        let ihd: int = self.cfg.index_hd as int;
        let cmds: Seq<CommandView> = self.index_score_cmds(iw, keys, x, m, start_pos, ratio);
        let g: CommandView = gemmed(b.qr, iw.wq_b, b.iq, m, nhi * ihd, self.cfg.q_rank as int);
        let up: CommandView = CommandView::Upload {
            data: ints_bytes(token_positions(start_pos, m, nhi)),
            dst: b.idx_pos,
        };
        let r: Seq<CommandView> = self.rope_cmds(b.iq, b.idx_pos, m * nhi, ihd, true, false);
        let f: Seq<CommandView> = self.fp4_quant_cmds(b.iq, m * nhi * ihd, FP4_BLOCK as int, false);
        let head: Seq<CommandView> = seq![g, up] + r + f;
        let n: int = head.len() as int;
        lemma_mul_le(1, m, nhi);
        lemma_mul_le(1, m * nhi, ihd);
        let t2: spec_fn(DevicePtr) -> Value = step(step(s, g), up);
        let t3: spec_fn(DevicePtr) -> Value = run(t2, r);
        let t4: spec_fn(DevicePtr) -> Value = run(t3, f);
        lemma_run_few(s, g, up, up, up);
        lemma_run_append(s, seq![g, up], r);
        lemma_run_append(s, seq![g, up] + r, f);
        self.lemma_rope_flow(t2, b.iq, b.idx_pos, m * nhi, ihd, true, false);
        self.lemma_fp4_quant_flow(t3, b.iq, m * nhi * ihd, FP4_BLOCK as int, false);
        let tail: Seq<CommandView> = cmds.skip(n);
        assert(tail.len() == 4 && cmds =~= head + tail);
        assert(tail =~= seq![tail[0], tail[1], tail[2], tail[3]]);
        lemma_run_append(s, head, tail);
        lemma_run_few(t4, tail[0], tail[1], tail[2], tail[3]);
        lemma_div_up_covers((m * nhi) as u32, 256);
        lemma_div_up_covers(((start_pos + m) / ratio) as u32, 256);
        self.lemma_places();
        assert(tail[0] == gemmed(x, iw.weights_proj, b.iw_raw, m, nhi, self.cfg.dim as int));
        assert(tail[3] == CommandView::Synchronize);
        let t5: spec_fn(DevicePtr) -> Value = step(t4, tail[0]);
        let t6: spec_fn(DevicePtr) -> Value = step(t5, tail[1]);
        assert(t6(b.iw) == Value::Scaled {
            x: Box::new(product(s(x), s(iw.weights_proj), m, nhi, self.cfg.dim as int)),
            n: (m * nhi) as u32,
            by: self.index_scale,
        });
        assert(t6(b.iq) == t4(b.iq));
    }
}

impl AttnV41 {
    /// A layer whose buffers are apart, on a state with room, takes a call.
    pub open spec fn takes(
        &self,
        w: &AttnV41LayerWeights,
        st: &AttnV41LayerState,
        shared: &SharedV41,
        x: DevicePtr,
        m: usize,
        start_pos: usize,
    ) -> bool {
        &&& self.is_laid_out()
        &&& self.cfg.window > 0
        &&& self.cfg.index_hd > 0
        &&& self.cfg.index_heads > 0
        &&& self.are_outside(Self::inputs(w, x))
        &&& self.state_is_apart(w, st, x)
        &&& has_room(st.window, self.cfg.window * self.cfg.head_dim * 2)
        &&& w.role.ratio > 0 ==> st.room_for(&self.cfg, w.role.ratio as int)
        &&& self.forward_error(w, st, shared, m, start_pos) is None
    }

    /// The indexer of a call runs: on an index source, once there is a
    /// compressed position.
    pub open spec fn scores(w: &AttnV41LayerWeights, m: int, start_pos: int) -> bool {
        w.role.ratio > 0 && w.role.is_index_source && (start_pos + m) / w.role.ratio as int > 0
    }

    /// The index keys that a call is scored against: its own layer's where it
    /// adds to them, else those that an earlier source published.
    pub open spec fn keys_read(
        w: &AttnV41LayerWeights,
        st: &AttnV41LayerState,
        shared: &SharedV41,
        m: int,
        start_pos: int,
    ) -> DevicePtr {
        if Self::groups_completed(w, m, start_pos) is Some && st.index_k is Some {
            st.index_k->0
        } else {
            shared.index_k->0
        }
    }

    proof fn lemma_completed(w: &AttnV41LayerWeights, m: int, start_pos: int)
        requires
            1 <= m <= usize::MAX,
            0 <= start_pos,
        ensures
            Self::call_groups(w, m, start_pos) is Some <==> Self::groups_completed(w, m, start_pos) is Some,
            Self::groups_completed(w, m, start_pos) matches Some(g) ==> {
                &&& Self::call_groups(w, m, start_pos)->0 == g
                &&& completes_group(m, start_pos, w.role.ratio as int)
                &&& completed_groups(m, start_pos, w.role.ratio as int) == g
            },
    {
        if w.role.ratio > 0 {
            lemma_prefill_split(m, w.role.ratio as int);
        }
    }

    proof fn lemma_keys_before_scores(
        &self,
        iw: IndexerWeightsGpu,
        keys: DevicePtr,
        cache: DevicePtr,
        x: DevicePtr,
        groups: int,
        m: int,
        start_pos: int,
        ratio: int,
        s: spec_fn(DevicePtr) -> Value,
    )
        requires
            self.is_laid_out(),
            self.cfg.index_hd > 0,
            0 < groups,
            0 < ratio,
            0 <= start_pos,
            self.place(iw.wk->0) == -1,
            self.place(iw.k_norm->0) == -1,
            start_pos / ratio < self.cfg.max_seq as int / ratio,
            has_room(cache, (self.cfg.max_seq as int / ratio) * (self.cfg.index_hd * 2)),
            forall|q: DevicePtr|
                #[trigger] self.place(q) >= 0 ==> !within(
                    q,
                    cache,
                    (self.cfg.max_seq as int / ratio) * (self.cfg.index_hd * 2),
                ),
        ensures
            ({
                let a: Seq<CommandView> = self.index_key_cmds(iw.wk->0, iw.k_norm->0, cache, groups, start_pos, ratio);
                let cmds: Seq<CommandView> = a + self.index_score_cmds(iw, keys, x, m, start_pos, ratio);
                let row: int = self.cfg.index_hd * 2;
                forall|i: int|
                    0 <= i < cmds.len() && is_launch(#[trigger] cmds[i], Kernel::AttnIndexScore) ==> run(
                        s,
                        cmds.take(i),
                    )(offset_by(cache, (start_pos / ratio) * row)) == (Value::Copied {
                        of: Box::new(run(s, a)(self.buf.ik)),
                        bytes: groups * row,
                    })
            }),
    {
        let a: Seq<CommandView> = self.index_key_cmds(iw.wk->0, iw.k_norm->0, cache, groups, start_pos, ratio);
        let b: Seq<CommandView> = self.index_score_cmds(iw, keys, x, m, start_pos, ratio);
        let cmds: Seq<CommandView> = a + b;
        let row: int = self.cfg.index_hd * 2;
        let held: int = self.cfg.max_seq as int / ratio;
        let at: DevicePtr = offset_by(cache, (start_pos / ratio) * row);
        let t: spec_fn(DevicePtr) -> Value = run(s, a);
        self.lemma_places();
        self.lemma_keyed(iw.wk->0, iw.k_norm->0, cache, groups, start_pos, ratio, s);
        lemma_prefill_split(start_pos, ratio);
        lemma_row_bounds(start_pos / ratio, held, row);
        assert(within(at, cache, held * row));
        assert(self.place(at) < 0);
        assert forall|i: int| 0 <= i < cmds.len() && is_launch(#[trigger] cmds[i], Kernel::AttnIndexScore) implies run(
            s,
            cmds.take(i),
        )(at) == (Value::Copied { of: Box::new(t(self.buf.ik)), bytes: groups * row }) by {
            if i < a.len() {
                assert(cmds[i] == a[i]);
                assert(!is_launch(a[i], Kernel::AttnIndexScore));
            } else {
                let k: int = i - a.len();
                assert(cmds[i] == b[k]);
                assert(cmds.take(i) =~= a + b.take(k));
                lemma_run_append(s, a, b.take(k));
                lemma_run_spares(t, b.take(k), at);
                assert forall|j: int| 0 <= j < b.take(k).len() implies !writes_to(#[trigger] b.take(k)[j], at) by {
                    assert(b.take(k)[j] == b[j]);
                    self.lemma_scores_write_workspaces(iw, keys, x, m, start_pos, ratio, j);
                }
            }
        }
    }

    proof fn lemma_scores_write_workspaces(
        &self,
        iw: IndexerWeightsGpu,
        keys: DevicePtr,
        x: DevicePtr,
        m: int,
        start_pos: int,
        ratio: int,
        j: int,
    )
        requires
            self.is_laid_out(),
            0 <= j < self.index_score_cmds(iw, keys, x, m, start_pos, ratio).len(),
        ensures
            forall|p: DevicePtr|
                #[trigger] writes_to(self.index_score_cmds(iw, keys, x, m, start_pos, ratio)[j], p) ==> self.place(p)
                    >= 0,
    {
        self.lemma_places();
        let c: CommandView = self.index_score_cmds(iw, keys, x, m, start_pos, ratio)[j];
        assert(writes_to(c, self.buf.iq) || writes_to(c, self.buf.idx_pos) || writes_to(c, self.buf.iw_raw) || writes_to(
            c,
            self.buf.iw,
        ) || writes_to(c, self.buf.score) || c is Synchronize);
    }

    proof fn lemma_indexed(
        &self,
        w: &AttnV41LayerWeights,
        st: &AttnV41LayerState,
        shared: &SharedV41,
        x: DevicePtr,
        m: usize,
        start_pos: usize,
        s: spec_fn(DevicePtr) -> Value,
    )
        requires
            self.takes(w, st, shared, x, m, start_pos),
            Self::scores(w, m as int, start_pos as int),
        ensures
            ({
                let ratio: int = w.role.ratio as int;
                let iw: IndexerWeightsGpu = w.idx->0;
                let t: spec_fn(DevicePtr) -> Value = run(
                    s,
                    self.indexer_cmds(
                        w,
                        st,
                        shared,
                        x,
                        Self::call_groups(w, m as int, start_pos as int),
                        m as int,
                        start_pos as int,
                    ),
                );
                &&& t(self.buf.score) == self.index_scores(
                    s(self.buf.qr),
                    iw,
                    Self::keys_read(w, st, shared, m as int, start_pos as int),
                    x,
                    m as int,
                    start_pos as int,
                    ratio,
                    s,
                )
                &&& Self::groups_completed(w, m as int, start_pos as int) is Some && st.index_k is Some ==> t(
                    self.buf.ik,
                ) == self.index_key_rows(
                    s(self.buf.latent),
                    s(iw.wk->0),
                    s(iw.k_norm->0),
                    s(self.buf.fc_yarn),
                    Self::groups_completed(w, m as int, start_pos as int)->0,
                    start_pos as int,
                    ratio,
                )
                &&& forall|p: DevicePtr|
                    0 <= self.place(p) < 15 || 17 <= self.place(p) <= 22 ==> #[trigger] t(p) == s(p)
                &&& Self::groups_completed(w, m as int, start_pos as int) matches Some(g) ==> st.index_k matches Some(
                    cache,
                ) ==> {
                    let cmds: Seq<CommandView> = self.indexer_cmds(
                        w,
                        st,
                        shared,
                        x,
                        Self::call_groups(w, m as int, start_pos as int),
                        m as int,
                        start_pos as int,
                    );
                    let row: int = self.cfg.index_hd * 2;
                    forall|i: int|
                        0 <= i < cmds.len() && is_launch(#[trigger] cmds[i], Kernel::AttnIndexScore) ==> run(
                            s,
                            cmds.take(i),
                        )(offset_by(cache, (start_pos as int / ratio) * row)) == (Value::Copied {
                            of: Box::new(t(self.buf.ik)),
                            bytes: g * row,
                        })
                }
            }),
    {
        let ratio: int = w.role.ratio as int;
        let iw: IndexerWeightsGpu = w.idx->0;
        let groups: Option<usize> = Self::call_groups(w, m as int, start_pos as int);
        Self::lemma_completed(w, m as int, start_pos as int);
        self.lemma_places();
        self.lemma_inputs_outside(w, x);
        let keys: DevicePtr = Self::index_keys(st, shared, groups)->0;
        let b: Seq<CommandView> = self.index_score_cmds(iw, keys, x, m as int, start_pos as int, ratio);
        if groups is Some && st.index_k is Some {
            let cache: DevicePtr = st.index_k->0;
            let g: int = groups->0 as int;
            let held: int = self.cfg.max_seq as int / ratio;
            let a: Seq<CommandView> = self.index_key_cmds(iw.wk->0, iw.k_norm->0, cache, g, start_pos as int, ratio);
            lemma_groups_in_range(&self.cfg, m as int, start_pos as int, ratio);
            assert(held * self.cfg.index_hd * 2 == held * (self.cfg.index_hd * 2)) by (nonlinear_arith);
            self.lemma_apart(cache, held * (self.cfg.index_hd * 2), w, x);
            self.lemma_keyed(iw.wk->0, iw.k_norm->0, cache, g, start_pos as int, ratio, s);
            lemma_run_append(s, a, b);
            let t: spec_fn(DevicePtr) -> Value = run(s, a);
            self.lemma_scored(iw, keys, x, m as int, start_pos as int, ratio, t);
            assert(t(x) == s(x) && t(iw.wq_b) == s(iw.wq_b) && t(iw.weights_proj) == s(iw.weights_proj));
            assert(t(self.buf.fc_yarn) == s(self.buf.fc_yarn));
            self.lemma_keys_before_scores(iw, keys, cache, x, g, m as int, start_pos as int, ratio, s);
            assert(a + b == self.indexer_cmds(w, st, shared, x, groups, m as int, start_pos as int));
        } else {
            let none: Seq<CommandView> = seq![];
            assert(none + b =~= b);
            self.lemma_scored(iw, keys, x, m as int, start_pos as int, ratio, s);
        }
    }

    /// What the first half of a layer computes. The queries are projected over
    /// a low rank and normed, the latent rows projected, normed and put through
    /// fp8, both rotated to their tokens' positions. A kv source makes the
    /// latents of the groups that the call completes, above ratio 1 of f32 rows
    /// and scores. An index source scores
    /// every compressed position, with its keys made of those latents. On a
    /// compressed layer all of them are rotated with the YaRN table, on the
    /// others with the plain one.
    pub proof fn lemma_forward_computes(
        &self,
        w: &AttnV41LayerWeights,
        st: &AttnV41LayerState,
        shared: &SharedV41,
        x: DevicePtr,
        m: usize,
        start_pos: usize,
        s: spec_fn(DevicePtr) -> Value,
    )
        requires
            self.takes(w, st, shared, x, m, start_pos),
        ensures
            ({
                let t: spec_fn(DevicePtr) -> Value = run(
                    s,
                    self.forward_cmds(w, st, shared, x, m as int, start_pos as int),
                );
                let groups: Option<int> = Self::groups_completed(w, m as int, start_pos as int);
                let latents: Value = self.latents(w, st, x, m as int, start_pos as int, s);
                &&& t(self.buf.q) == self.queries(w, x, m as int, start_pos as int, s)
                &&& t(self.buf.kv) == self.latent_rows(w, x, m as int, start_pos as int, s)
                &&& t(self.buf.head_pos) == Value::Data(
                    ints_bytes(token_positions(start_pos as int, m as int, self.cfg.n_heads as int)),
                )
                &&& t(self.buf.fc_plain) == s(self.buf.fc_plain)
                &&& t(self.buf.fc_yarn) == s(self.buf.fc_yarn)
                &&& groups is Some ==> t(self.buf.latent) == latents
                &&& w.role.is_kv_source && w.role.ratio > 1 ==> t(self.buf.ckv) == self.group_rows(w, x, m as int, s)
                &&& w.role.is_kv_source && w.role.ratio > 1 ==> t(self.buf.cscore) == self.group_scores(
                    w,
                    x,
                    m as int,
                    s,
                )
                &&& Self::scores(w, m as int, start_pos as int) ==> t(self.buf.score) == self.index_scores(
                    self.low_rank_queries(w, x, m as int, s),
                    w.idx->0,
                    Self::keys_read(w, st, shared, m as int, start_pos as int),
                    x,
                    m as int,
                    start_pos as int,
                    w.role.ratio as int,
                    s,
                )
                &&& Self::scores(w, m as int, start_pos as int) && groups is Some && st.index_k is Some ==> t(
                    self.buf.ik,
                ) == self.index_key_rows(
                    latents,
                    s((w.idx->0).wk->0),
                    s((w.idx->0).k_norm->0),
                    s(self.buf.fc_yarn),
                    groups->0,
                    start_pos as int,
                    w.role.ratio as int,
                )
            }),
    {
        let none: Seq<CommandView> = seq![];
        let mi: int = m as int;
        let sp: int = start_pos as int;
        let a: Seq<CommandView> = self.project_cmds(w, x, mi, sp);
        let b: Seq<CommandView> = self.window_cmds(st.window, mi, sp);
        let c: Seq<CommandView> = if self.compresses(w, st, mi, sp) {
            self.compressor_cmds(w, st, x, mi, sp)
        } else {
            none
        };
        let d: Seq<CommandView> = if Self::selects(w, mi, sp) {
            self.indexer_cmds(w, st, shared, x, Self::call_groups(w, mi, sp), mi, sp)
        } else {
            none
        };
        assert(self.forward_cmds(w, st, shared, x, mi, sp) == a + b + c + d);
        lemma_run_append(s, a, b);
        lemma_run_append(s, a + b, c);
        lemma_run_append(s, a + b + c, d);
        let t1: spec_fn(DevicePtr) -> Value = run(s, a);
        let t2: spec_fn(DevicePtr) -> Value = run(t1, b);
        let t3: spec_fn(DevicePtr) -> Value = run(t2, c);
        let ring: int = self.cfg.window * (self.cfg.head_dim * 2);
        assert(self.cfg.window * self.cfg.head_dim * 2 == ring) by (nonlinear_arith)
            requires
                ring == self.cfg.window * (self.cfg.head_dim * 2),
        ;
        self.lemma_places();
        self.lemma_inputs_outside(w, x);
        self.lemma_projected(w, x, mi, sp, s);
        self.lemma_window_frame(t1, st.window, mi, sp);
        self.lemma_apart(st.window, ring, w, x);
        lemma_run_one(t2, CommandView::Synchronize);
        lemma_run_one(t3, CommandView::Synchronize);
        Self::lemma_completed(w, mi, sp);
        if w.role.ratio > 0 {
            lemma_prefill_split(sp + mi, w.role.ratio as int);
        }
        assert(forall|p: DevicePtr| #[trigger] Self::inputs(w, x).contains(p) ==> t2(p) == s(p));
        assert(t2(self.buf.fc_yarn) == s(self.buf.fc_yarn));
        if self.compresses(w, st, mi, sp) {
            self.lemma_compressed(w, st, x, mi, sp, t2);
            if w.role.ratio > 1 {
                let (kv_state, score_state) = st.comp_state->0;
                lemma_mul_le(1, w.role.ratio as int, self.cfg.head_dim * 4);
                self.lemma_apart(kv_state, w.role.ratio * (self.cfg.head_dim * 4), w, x);
                self.lemma_apart(score_state, w.role.ratio * (self.cfg.head_dim * 4), w, x);
                assert(t2(kv_state) == s(kv_state) && t2(score_state) == s(score_state));
            }
            assert(self.latents(w, st, x, mi, sp, t2) == self.latents(w, st, x, mi, sp, s) || Self::groups_completed(
                w,
                mi,
                sp,
            ) is None);
        }
        if Self::scores(w, mi, sp) {
            self.lemma_indexed(w, st, shared, x, m, start_pos, t3);
            let iw: IndexerWeightsGpu = w.idx->0;
            assert(t3(x) == s(x) && t3(iw.wq_b) == s(iw.wq_b) && t3(iw.weights_proj) == s(iw.weights_proj));
        }
    }
}

impl AttnV41 {
    /// Rows are finished before they are stored or read. Whatever goes into the
    /// ring is copied when the latent rows are rotated and through fp8; and when
    /// the index queries are scored, the keys that the call adds are in the
    /// cache, behind the earlier ones, normed, rotated and through fp4.
    pub proof fn lemma_rows_are_finished(
        &self,
        w: &AttnV41LayerWeights,
        st: &AttnV41LayerState,
        shared: &SharedV41,
        x: DevicePtr,
        m: usize,
        start_pos: usize,
        s: spec_fn(DevicePtr) -> Value,
        i: int,
    )
        requires
            self.takes(w, st, shared, x, m, start_pos),
            0 <= i < self.forward_cmds(w, st, shared, x, m as int, start_pos as int).len(),
        ensures
            ({
                let cmds: Seq<CommandView> = self.forward_cmds(w, st, shared, x, m as int, start_pos as int);
                let ratio: int = w.role.ratio as int;
                let t: spec_fn(DevicePtr) -> Value = run(s, cmds.take(i));
                let groups: Option<int> = Self::groups_completed(w, m as int, start_pos as int);
                let row: int = self.cfg.index_hd * 2;
                &&& cmds[i] matches CommandView::CopyD2d { dst, .. } ==> within(
                    dst,
                    st.window,
                    self.cfg.window * (self.cfg.head_dim * 2),
                ) ==> t(self.buf.kv) == self.latent_rows(w, x, m as int, start_pos as int, s)
                &&& is_launch(cmds[i], Kernel::AttnIndexScore) && groups is Some && st.index_k is Some ==> t(
                    offset_by(st.index_k->0, (start_pos as int / ratio) * row),
                ) == (Value::Copied {
                    of: Box::new(
                        self.index_key_rows(
                            self.latents(w, st, x, m as int, start_pos as int, s),
                            s((w.idx->0).wk->0),
                            s((w.idx->0).k_norm->0),
                            s(self.buf.fc_yarn),
                            groups->0,
                            start_pos as int,
                            ratio,
                        ),
                    ),
                    bytes: groups->0 * row,
                })
            }),
    {
        let none: Seq<CommandView> = seq![];
        let mi: int = m as int;
        let sp: int = start_pos as int;
        let ratio: int = w.role.ratio as int;
        let a: Seq<CommandView> = self.project_cmds(w, x, mi, sp);
        let b: Seq<CommandView> = self.window_cmds(st.window, mi, sp);
        let c: Seq<CommandView> = if self.compresses(w, st, mi, sp) {
            self.compressor_cmds(w, st, x, mi, sp)
        } else {
            none
        };
        let d: Seq<CommandView> = if Self::selects(w, mi, sp) {
            self.indexer_cmds(w, st, shared, x, Self::call_groups(w, mi, sp), mi, sp)
        } else {
            none
        };
        let cmds: Seq<CommandView> = self.forward_cmds(w, st, shared, x, mi, sp);
        assert(cmds == a + b + c + d);
        if w.role.ratio > 0 {
            lemma_prefill_split(sp + mi, ratio);
        }
        if i < a.len() {
            assert(cmds[i] == a[i]);
            self.lemma_projections_copy_nothing(w, x, mi, sp, i);
        } else if i < a.len() + b.len() {
            let k: int = i - a.len();
            assert(cmds[i] == b[k]);
            assert(cmds.take(i) =~= a + b.take(k));
            self.lemma_ring_is_finished(w, st, x, mi, sp, s, k);
        } else if i < a.len() + b.len() + c.len() {
            let k: int = i - a.len() - b.len();
            assert(cmds[i] == c[k]);
            self.lemma_compressor_copies(w, st, x, mi, sp, k);
        } else {
            let k: int = i - a.len() - b.len() - c.len();
            assert(cmds[i] == d[k]);
            self.lemma_indexer_copies(w, st, shared, x, m, start_pos, k);
            self.lemma_keys_are_finished(w, st, shared, x, m, start_pos, s, i);
        }
    }

    proof fn lemma_projections_copy_nothing(&self, w: &AttnV41LayerWeights, x: DevicePtr, m: int, start_pos: int, i: int)
        requires
            0 <= i < self.project_cmds(w, x, m, start_pos).len(),
        ensures
            !(self.project_cmds(w, x, m, start_pos)[i] is CopyD2d),
            !is_launch(self.project_cmds(w, x, m, start_pos)[i], Kernel::AttnIndexScore),
    {
    }

    proof fn lemma_ring_is_finished(
        &self,
        w: &AttnV41LayerWeights,
        st: &AttnV41LayerState,
        x: DevicePtr,
        m: int,
        start_pos: int,
        s: spec_fn(DevicePtr) -> Value,
        k: int,
    )
        requires
            self.is_laid_out(),
            self.cfg.window > 0,
            self.are_outside(Self::inputs(w, x)),
            self.state_is_apart(w, st, x),
            has_room(st.window, self.cfg.window * self.cfg.head_dim * 2),
            call_in_range(&self.cfg, m, start_pos),
            0 <= k < self.window_cmds(st.window, m, start_pos).len(),
        ensures
            run(s, self.project_cmds(w, x, m, start_pos) + self.window_cmds(st.window, m, start_pos).take(k))(self.buf.kv)
                == self.latent_rows(w, x, m, start_pos, s),
            !is_launch(self.window_cmds(st.window, m, start_pos)[k], Kernel::AttnIndexScore),
    {
        let ring: int = self.cfg.window * (self.cfg.head_dim * 2);
        assert(self.cfg.window * self.cfg.head_dim * 2 == ring) by (nonlinear_arith)
            requires
                ring == self.cfg.window * (self.cfg.head_dim * 2),
        ;
        let a: Seq<CommandView> = self.project_cmds(w, x, m, start_pos);
        let b: Seq<CommandView> = self.window_cmds(st.window, m, start_pos);
        self.lemma_places();
        self.lemma_apart(st.window, ring, w, x);
        lemma_run_append(s, a, b.take(k));
        self.lemma_projected(w, x, m, start_pos, s);
        lemma_run_spares(run(s, a), b.take(k), self.buf.kv);
        assert forall|j: int| 0 <= j < b.take(k).len() implies !writes_to(#[trigger] b.take(k)[j], self.buf.kv) by {
            assert(b.take(k)[j] == b[j]);
            self.lemma_ring_copy(st.window, m, start_pos, j);
        }
        self.lemma_ring_copy(st.window, m, start_pos, k);
    }

    proof fn lemma_keys_are_finished(
        &self,
        w: &AttnV41LayerWeights,
        st: &AttnV41LayerState,
        shared: &SharedV41,
        x: DevicePtr,
        m: usize,
        start_pos: usize,
        s: spec_fn(DevicePtr) -> Value,
        i: int,
    )
        requires
            self.takes(w, st, shared, x, m, start_pos),
            Self::scores(w, m as int, start_pos as int),
            ({
                let cmds: Seq<CommandView> = self.forward_cmds(w, st, shared, x, m as int, start_pos as int);
                let d: Seq<CommandView> = self.indexer_cmds(
                    w,
                    st,
                    shared,
                    x,
                    Self::call_groups(w, m as int, start_pos as int),
                    m as int,
                    start_pos as int,
                );
                cmds.len() - d.len() <= i < cmds.len()
            }),
        ensures
            ({
                let cmds: Seq<CommandView> = self.forward_cmds(w, st, shared, x, m as int, start_pos as int);
                let ratio: int = w.role.ratio as int;
                let groups: Option<int> = Self::groups_completed(w, m as int, start_pos as int);
                let row: int = self.cfg.index_hd * 2;
                is_launch(cmds[i], Kernel::AttnIndexScore) && groups is Some && st.index_k is Some ==> run(
                    s,
                    cmds.take(i),
                )(offset_by(st.index_k->0, (start_pos as int / ratio) * row)) == (Value::Copied {
                    of: Box::new(
                        self.index_key_rows(
                            self.latents(w, st, x, m as int, start_pos as int, s),
                            s((w.idx->0).wk->0),
                            s((w.idx->0).k_norm->0),
                            s(self.buf.fc_yarn),
                            groups->0,
                            start_pos as int,
                            ratio,
                        ),
                    ),
                    bytes: groups->0 * row,
                })
            }),
    {
        let mi: int = m as int;
        let sp: int = start_pos as int;
        let cmds: Seq<CommandView> = self.forward_cmds(w, st, shared, x, mi, sp);
        let d: Seq<CommandView> = self.indexer_cmds(w, st, shared, x, Self::call_groups(w, mi, sp), mi, sp);
        let front: Seq<CommandView> = cmds.take(cmds.len() - d.len());
        let k: int = i - front.len();
        lemma_prefill_split(sp + mi, w.role.ratio as int);
        assert(cmds =~= front + d);
        assert(cmds[i] == d[k]);
        assert(cmds.take(i) =~= front + d.take(k));
        lemma_run_append(s, front, d.take(k));
        lemma_run_append(s, front, d);
        self.lemma_indexed(w, st, shared, x, m, start_pos, run(s, front));
        self.lemma_forward_computes(w, st, shared, x, m, start_pos, s);
    }

    proof fn lemma_ring_copy(&self, window: DevicePtr, m: int, start_pos: int, j: int)
        requires
            self.cfg.window > 0,
            self.cfg.head_dim > 0,
            call_in_range(&self.cfg, m, start_pos),
            has_room(window, self.cfg.window * (self.cfg.head_dim * 2)),
            0 <= j < self.window_cmds(window, m, start_pos).len(),
        ensures
            self.window_cmds(window, m, start_pos)[j] matches CommandView::CopyD2d { dst, .. } && within(
                dst,
                window,
                self.cfg.window * (self.cfg.head_dim * 2),
            ),
    {
        let win: int = self.cfg.window as int;
        let row: int = self.cfg.head_dim * 2;
        lemma_mul_le(1, win, row);
        lemma_fundamental_div_mod(m, win);
        lemma_fundamental_div_mod(start_pos, win);
        lemma_row_bounds(m % win, win, row);
        lemma_row_bounds(start_pos % win, win, row);
    }

    proof fn lemma_compressor_copies(
        &self,
        w: &AttnV41LayerWeights,
        st: &AttnV41LayerState,
        x: DevicePtr,
        m: int,
        start_pos: int,
        k: int,
    )
        requires
            self.cfg.head_dim > 0,
            self.state_is_apart(w, st, x),
            st.room_for(&self.cfg, w.role.ratio as int),
            self.compresses(w, st, m, start_pos),
            0 <= k < self.compressor_cmds(w, st, x, m, start_pos).len(),
        ensures
            ({
                let c: CommandView = self.compressor_cmds(w, st, x, m, start_pos)[k];
                &&& !is_launch(c, Kernel::AttnIndexScore)
                &&& c matches CommandView::CopyD2d { dst, .. } ==> !within(
                    dst,
                    st.window,
                    self.cfg.window * (self.cfg.head_dim * 2),
                )
            }),
    {
        let ratio: int = w.role.ratio as int;
        let row: int = self.cfg.head_dim * 4;
        let cmds: Seq<CommandView> = self.compressor_cmds(w, st, x, m, start_pos);
        if ratio > 1 {
            let (kv_state, score_state) = st.comp_state->0;
            let part: Seq<CommandView> = self.partial_group_cmds(kv_state, score_state, m, start_pos, ratio);
            assert(ratio * self.cfg.head_dim * 4 == ratio * row) by (nonlinear_arith)
                requires
                    row == self.cfg.head_dim * 4,
            ;
            lemma_mul_le(1, ratio, row);
            lemma_fundamental_div_mod(start_pos, ratio);
            lemma_row_bounds(start_pos % ratio, ratio, row);
            if 2 <= k < 2 + part.len() {
                assert(cmds[k] == part[k - 2]);
            } else if k >= 2 + part.len() {
                let pool: Seq<CommandView> = self.pool_cmds((w.comp->0).norm, kv_state, score_state, m, start_pos, ratio);
                assert(cmds[k] == pool[k - 2 - part.len()]);
            }
        }
    }

    proof fn lemma_indexer_copies(
        &self,
        w: &AttnV41LayerWeights,
        st: &AttnV41LayerState,
        shared: &SharedV41,
        x: DevicePtr,
        m: usize,
        start_pos: usize,
        k: int,
    )
        requires
            self.takes(w, st, shared, x, m, start_pos),
            Self::scores(w, m as int, start_pos as int),
            0 <= k < self.indexer_cmds(
                w,
                st,
                shared,
                x,
                Self::call_groups(w, m as int, start_pos as int),
                m as int,
                start_pos as int,
            ).len(),
        ensures
            self.indexer_cmds(
                w,
                st,
                shared,
                x,
                Self::call_groups(w, m as int, start_pos as int),
                m as int,
                start_pos as int,
            )[k] matches CommandView::CopyD2d { dst, .. } ==> !within(
                dst,
                st.window,
                self.cfg.window * (self.cfg.head_dim * 2),
            ),
    {
        let ratio: int = w.role.ratio as int;
        let sp: int = start_pos as int;
        let groups: Option<usize> = Self::call_groups(w, m as int, sp);
        let cmds: Seq<CommandView> = self.indexer_cmds(w, st, shared, x, groups, m as int, sp);
        Self::lemma_completed(w, m as int, sp);
        let iw: IndexerWeightsGpu = w.idx->0;
        let b: Seq<CommandView> = self.index_score_cmds(
            iw,
            Self::index_keys(st, shared, groups)->0,
            x,
            m as int,
            sp,
            ratio,
        );
        if groups is Some && st.index_k is Some {
            let cache: DevicePtr = st.index_k->0;
            let ihd: int = self.cfg.index_hd as int;
            let held: int = self.cfg.max_seq as int / ratio;
            let g: int = groups->0 as int;
            let a: Seq<CommandView> = self.index_key_cmds(iw.wk->0, iw.k_norm->0, cache, g, sp, ratio);
            lemma_groups_in_range(&self.cfg, m as int, sp, ratio);
            lemma_row_bounds(sp / ratio, held, ihd * 2);
            assert(held * ihd * 2 == held * (ihd * 2) && (sp / ratio) * ihd * 2 == (sp / ratio) * (ihd * 2)) by (
                nonlinear_arith
            );
            if k < a.len() {
                assert(cmds[k] == a[k]);
                if a[k] is CopyD2d {
                    assert(k == a.len() - 1);
                    assert(within(offset_by(cache, (sp / ratio) * (ihd * 2)), cache, held * (ihd * 2)));
                }
            } else {
                assert(cmds[k] == b[k - a.len()]);
            }
        } else {
            assert(cmds =~= b);
        }
    }
}

impl AttnV41 {
    /// Where the rows of group `g` of the first output projection start.
    pub open spec fn group_weights(&self, w: &AttnV41LayerWeights, g: int) -> DevicePtr {
        offset_by(w.wo_a, g * self.cfg.o_rank * self.cfg.group_width() * 2)
    }

    /// The output projection's rows are apart from the workspaces and from the
    /// latent cache.
    pub open spec fn groups_are_apart(&self, w: &AttnV41LayerWeights, st: &AttnV41LayerState) -> bool {
        forall|g: int|
            0 <= g < self.cfg.groups ==> {
                &&& self.place(#[trigger] self.group_weights(w, g)) == -1
                &&& st.compress_kv matches Some(k) ==> !within(
                    self.group_weights(w, g),
                    k,
                    (self.cfg.max_seq as int / w.role.ratio as int) * (self.cfg.head_dim * 2),
                )
            }
    }

    /// The first `n` groups of the low-rank output: group `g` is the product of
    /// its columns of the heads with its rows of the weights, in its columns.
    pub open spec fn grouped_output(
        &self,
        w: &AttnV41LayerWeights,
        heads: Value,
        m: int,
        n: int,
        s: spec_fn(DevicePtr) -> Value,
    ) -> Value
        decreases n,
    {
        let c: AttnV41Cfg = self.cfg;
        let rank: int = c.o_rank as int;
        let gw: int = c.group_width();
        if n <= 0 {
            s(self.buf.og)
        } else {
            Value::Placed {
                into: Box::new(self.grouped_output(w, heads, m, n - 1, s)),
                part: Box::new(
                    product(
                        Value::Columns {
                            x: Box::new(heads),
                            rows: m as u32,
                            stride: (c.n_heads * c.head_dim) as u32,
                            from: ((n - 1) * gw) as u32,
                            width: gw as u32,
                        },
                        s(self.group_weights(w, n - 1)),
                        m,
                        rank,
                        gw,
                    ),
                ),
                rows: m as u32,
                stride: (c.groups * rank) as u32,
                from: ((n - 1) * rank) as u32,
                width: rank as u32,
            }
        }
    }

    proof fn lemma_grouped(&self, w: &AttnV41LayerWeights, st: &AttnV41LayerState, m: int, n: int, s: spec_fn(DevicePtr) -> Value)
        requires
            self.is_laid_out(),
            self.groups_are_apart(w, st),
            0 <= n <= self.cfg.groups,
        ensures
            ({
                let t: spec_fn(DevicePtr) -> Value = run(s, concat_rows(n as nat, |g: int| self.group_cmds(w, m, g)));
                &&& t(self.buf.og) == self.grouped_output(w, s(self.buf.o_rot), m, n, s)
                &&& forall|p: DevicePtr| self.place(p) < 9 || 12 <= self.place(p) ==> #[trigger] t(p) == s(p)
            }),
        decreases n,
    {
        let f = |g: int| self.group_cmds(w, m, g);
        let b: AttnV41Buffers = self.buf;
        if n == 0 {
            lemma_run_one(s, CommandView::Synchronize);
            let none: Seq<CommandView> = seq![];
            assert(concat_rows(0, f) =~= none);
        } else {
            self.lemma_grouped(w, st, m, n - 1, s);
            let before: Seq<CommandView> = concat_rows((n - 1) as nat, f);
            let t: spec_fn(DevicePtr) -> Value = run(s, before);
            let last: Seq<CommandView> = self.group_cmds(w, m, n - 1);
            assert(f(n - 1) == last);
            lemma_run_append(s, before, last);
            lemma_run_few(t, last[0], last[1], last[2], last[2]);
            assert(last =~= seq![last[0], last[1], last[2]]);
            self.lemma_places();
            assert(self.place(self.group_weights(w, n - 1)) == -1);
            let t1: spec_fn(DevicePtr) -> Value = step(t, last[0]);
            let t2: spec_fn(DevicePtr) -> Value = step(t1, last[1]);
            let gw: int = self.cfg.group_width();
            let rank: int = self.cfg.o_rank as int;
            assert(last[1] == gemmed(b.slice_in, self.group_weights(w, n - 1), b.slice_out, m, rank, gw));
            assert(t1(b.slice_in) == Value::Columns {
                x: Box::new(s(b.o_rot)),
                rows: m as u32,
                stride: (self.cfg.n_heads * self.cfg.head_dim) as u32,
                from: ((n - 1) * gw) as u32,
                width: gw as u32,
            });
            assert(t2(b.slice_out) == product(t1(b.slice_in), s(self.group_weights(w, n - 1)), m, rank, gw));
        }
    }

    /// The heads' outputs: sparse attention with the sink, over the window rows
    /// and the compressed rows behind them, at the given positions.
    pub open spec fn attended_heads(
        &self,
        w: &AttnV41LayerWeights,
        p: AttnPending,
        q: Value,
        rows_a: Value,
        rows_b: DevicePtr,
        idx: Seq<i32>,
        topk: int,
        s: spec_fn(DevicePtr) -> Value,
    ) -> Value {
        Value::Attended {
            q: Box::new(q),
            rows_a: Box::new(rows_a),
            rows_b,
            split: p.rows_a_len as u32,
            idx: Box::new(Value::Data(ints_bytes(idx))),
            sink: Box::new(s(w.sink)),
            queries: p.m as u32,
            heads: self.cfg.n_heads as u32,
            hd: self.cfg.head_dim as u32,
            topk: topk as u32,
            scale: self.attn_scale,
        }
    }

    /// The output of a layer: the heads' outputs rotated back from their
    /// tokens' positions, projected group by group to a low rank, and projected
    /// up.
    pub open spec fn projected_output(
        &self,
        w: &AttnV41LayerWeights,
        heads: Value,
        pos: Value,
        m: int,
        s: spec_fn(DevicePtr) -> Value,
    ) -> Value {
        let c: AttnV41Cfg = self.cfg;
        let back: Value = Value::Rotated {
            x: Box::new(Value::Copied { of: Box::new(heads), bytes: m * c.n_heads * c.head_dim * 2 }),
            pos: Box::new(pos),
            table: Box::new(self.table_of(w, s)),
            rows: (m * c.n_heads) as u32,
            row_len: c.head_dim as u32,
            rope_dim: c.rope_dim as u32,
            inverse: true,
        };
        product(
            self.grouped_output(w, back, m, c.groups as int, s),
            s(w.wo_b),
            m,
            c.dim as int,
            c.groups * c.o_rank,
        )
    }

    proof fn lemma_grouped_output_reads(
        &self,
        w: &AttnV41LayerWeights,
        heads: Value,
        m: int,
        n: int,
        s: spec_fn(DevicePtr) -> Value,
        t: spec_fn(DevicePtr) -> Value,
    )
        requires
            n <= self.cfg.groups,
            s(self.buf.og) == t(self.buf.og),
            forall|g: int| 0 <= g < self.cfg.groups ==> s(#[trigger] self.group_weights(w, g)) == t(
                self.group_weights(w, g),
            ),
        ensures
            self.grouped_output(w, heads, m, n, s) == self.grouped_output(w, heads, m, n, t),
        decreases n,
    {
        if n > 0 {
            self.lemma_grouped_output_reads(w, heads, m, n - 1, s, t);
            assert(s(self.group_weights(w, n - 1)) == t(self.group_weights(w, n - 1)));
        }
    }

    proof fn lemma_attended(
        &self,
        w: &AttnV41LayerWeights,
        st: &AttnV41LayerState,
        x: DevicePtr,
        p: AttnPending,
        rows_b: Option<DevicePtr>,
        idx: Seq<i32>,
        topk: int,
        s: spec_fn(DevicePtr) -> Value,
    )
        requires
            self.is_laid_out(),
            self.are_outside(Self::inputs(w, x)),
            self.groups_are_apart(w, st),
            self.place(p.rows_a) == 6 || self.place(p.rows_a) == -1,
            1 <= p.m,
        ensures
            ({
                let t: spec_fn(DevicePtr) -> Value = run(s, self.attend_cmds(w, p, rows_b, idx, topk));
                let b: DevicePtr = match rows_b {
                    Some(b) => b,
                    None => p.rows_a,
                };
                let heads: Value = self.attended_heads(w, p, s(self.buf.q), s(p.rows_a), b, idx, topk, s);
                &&& t(self.buf.o) == heads
                &&& t(self.buf.out) == self.projected_output(w, heads, s(self.buf.head_pos), p.m as int, s)
            }),
    {
        let b: AttnV41Buffers = self.buf;
        let c: AttnV41Cfg = self.cfg;
        let m: int = p.m as int;
        let nh: int = c.n_heads as int;
        let hd: int = c.head_dim as int;
        let cmds: Seq<CommandView> = self.attend_cmds(w, p, rows_b, idx, topk);
        let up: CommandView = CommandView::Upload { data: ints_bytes(idx), dst: b.idx_dev };
        let attend: CommandView = cmds[1];
        let copy: CommandView = CommandView::CopyD2d { src: b.o, dst: b.o_rot, bytes: m * nh * hd * 2 };
        let head: Seq<CommandView> = seq![up, attend, CommandView::Synchronize, copy];
        let r: Seq<CommandView> = self.rope_cmds(b.o_rot, b.head_pos, m * nh, hd, w.role.ratio > 0, true);
        let g: Seq<CommandView> = concat_rows(c.groups as nat, |g: int| self.group_cmds(w, m, g));
        let last: CommandView = gemmed(b.og, w.wo_b, b.out, m, c.dim as int, c.groups * c.o_rank);
        assert(cmds == head + r + g + seq![last, CommandView::Synchronize]);
        lemma_mul_le(1, m, nh);
        let t4: spec_fn(DevicePtr) -> Value = run(s, head);
        let t5: spec_fn(DevicePtr) -> Value = run(t4, r);
        let t6: spec_fn(DevicePtr) -> Value = run(t5, g);
        lemma_run_few(s, up, attend, CommandView::Synchronize, copy);
        lemma_run_append(s, head, r);
        lemma_run_append(s, head + r, g);
        lemma_run_append(s, head + r + g, seq![last, CommandView::Synchronize]);
        lemma_run_few(t6, last, CommandView::Synchronize, last, last);
        self.lemma_rope_flow(t4, b.o_rot, b.head_pos, m * nh, hd, w.role.ratio > 0, true);
        self.lemma_grouped(w, st, m, c.groups as int, t5);
        self.lemma_places();
        self.lemma_inputs_outside(w, x);
        let rows: DevicePtr = match rows_b {
            Some(b) => b,
            None => p.rows_a,
        };
        let heads: Value = self.attended_heads(w, p, s(b.q), s(p.rows_a), rows, idx, topk, s);
        assert(step(step(s, up), attend)(b.o) == heads);
        assert(t4(b.o_rot) == Value::Copied { of: Box::new(heads), bytes: m * nh * hd * 2 });
        assert(t5(b.og) == s(b.og));
        assert forall|k: int| 0 <= k < c.groups implies t5(#[trigger] self.group_weights(w, k)) == s(
            self.group_weights(w, k),
        ) by {
            assert(self.place(self.group_weights(w, k)) == -1);
        }
        self.lemma_grouped_output_reads(w, t5(b.o_rot), m, c.groups as int, t5, s);
    }
}

impl AttnV41 {
    /// The latents as they are cached: rotated to where their groups start,
    /// and put through fp4 in blocks of 16 with e4m3 scales.
    pub open spec fn cached_latents(&self, latents: Value, yarn: Value, groups: int, start_pos: int, ratio: int) -> Value {
        let hd: int = self.cfg.head_dim as int;
        Value::Fp4 {
            x: Box::new(
                self.turned(latents, group_positions_of(groups, ratio, start_pos), yarn, groups, hd, false),
            ),
            blocks: (groups * hd / 16) as u32,
            block: 16,
            e4m3: true,
        }
    }

    proof fn lemma_latents_kept(
        &self,
        cache: DevicePtr,
        m: int,
        start_pos: int,
        ratio: int,
        s: spec_fn(DevicePtr) -> Value,
    )
        requires
            self.is_laid_out(),
            0 < ratio,
            call_in_range(&self.cfg, m, start_pos),
            completes_group(m, start_pos, ratio),
            has_room(cache, (self.cfg.max_seq as int / ratio) * (self.cfg.head_dim * 2)),
            forall|q: DevicePtr|
                #[trigger] self.place(q) >= 0 ==> !within(
                    q,
                    cache,
                    (self.cfg.max_seq as int / ratio) * (self.cfg.head_dim * 2),
                ),
        ensures
            ({
                let hd: int = self.cfg.head_dim as int;
                let groups: int = completed_groups(m, start_pos, ratio);
                let t: spec_fn(DevicePtr) -> Value = run(s, self.latent_cmds(cache, groups, start_pos, ratio));
                let kept: Value = self.cached_latents(s(self.buf.latent), s(self.buf.fc_yarn), groups, start_pos, ratio);
                &&& t(offset_by(cache, (start_pos / ratio) * (hd * 2))) == Value::Copied {
                    of: Box::new(kept),
                    bytes: groups * (hd * 2),
                }
                &&& forall|p: DevicePtr|
                    self.place(p) != 16 && self.place(p) != 22 && !within(
                        p,
                        cache,
                        (self.cfg.max_seq as int / ratio) * (hd * 2),
                    ) ==> #[trigger] t(p) == s(p)
            }),
    {
        let b: AttnV41Buffers = self.buf;
        let hd: int = self.cfg.head_dim as int;
        let row: int = hd * 2;
        let held: int = self.cfg.max_seq as int / ratio;
        let groups: int = completed_groups(m, start_pos, ratio);
        let first: int = start_pos / ratio;
        lemma_groups_in_range(&self.cfg, m, start_pos, ratio);
        lemma_row_bounds(first, held, row);
        lemma_mul_le(1, groups, hd);
        let up: CommandView = CommandView::Upload {
            data: ints_bytes(group_positions_of(groups, ratio, start_pos)),
            dst: b.grp_pos,
        };
        let r: Seq<CommandView> = self.rope_cmds(b.latent, b.grp_pos, groups, hd, true, false);
        let f: Seq<CommandView> = self.fp4_quant_cmds(b.latent, groups * hd, 16, true);
        let copy: CommandView = CommandView::CopyD2d {
            src: b.latent,
            dst: offset_by(cache, first * row),
            bytes: groups * row,
        };
        let last: Seq<CommandView> = seq![CommandView::Synchronize, copy];
        assert(self.latent_cmds(cache, groups, start_pos, ratio) == seq![up] + r + f + last);
        let t1: spec_fn(DevicePtr) -> Value = run(s, seq![up]);
        let t2: spec_fn(DevicePtr) -> Value = run(t1, r);
        let t3: spec_fn(DevicePtr) -> Value = run(t2, f);
        lemma_run_one(s, up);
        lemma_run_append(s, seq![up], r);
        lemma_run_append(s, seq![up] + r, f);
        lemma_run_append(s, seq![up] + r + f, last);
        lemma_run_few(t3, CommandView::Synchronize, copy, copy, copy);
        self.lemma_rope_flow(t1, b.latent, b.grp_pos, groups, hd, true, false);
        self.lemma_fp4_quant_flow(t2, b.latent, groups * hd, 16, true);
        self.lemma_places();
        assert(t3(b.latent) == self.cached_latents(s(b.latent), s(b.fc_yarn), groups, start_pos, ratio));
        assert(within(offset_by(cache, first * row), cache, held * row));
    }

    /// What the second half of a layer computes. The latents that the call made
    /// are rotated, put through fp4 and in the cache, behind the earlier ones,
    /// when the queries attend: to the window rows, and to the compressed rows
    /// of the layer itself where the call completes groups, of the source above
    /// it where it does not. The heads' outputs are rotated back with the
    /// table and the positions that the queries were rotated with, and
    /// projected.
    pub proof fn lemma_finish_computes(
        &self,
        w: &AttnV41LayerWeights,
        st: &AttnV41LayerState,
        shared: &SharedV41,
        x: DevicePtr,
        p: AttnPending,
        score: Seq<u32>,
        window_idx: Seq<i32>,
        window_topk: int,
        s: spec_fn(DevicePtr) -> Value,
    )
        requires
            self.is_laid_out(),
            self.cfg.window > 0,
            self.are_outside(Self::inputs(w, x)),
            self.state_is_apart(w, st, x),
            self.groups_are_apart(w, st),
            w.role.ratio > 0 ==> st.room_for(&self.cfg, w.role.ratio as int),
            call_in_range(&self.cfg, p.m as int, p.start_pos as int),
            p == self.pending_of(w, st, p.m, p.start_pos),
            self.finish_error(w, st, shared, p, score, window_topk) is None,
        ensures
            ({
                let m: int = p.m as int;
                let ratio: int = w.role.ratio as int;
                let hd: int = self.cfg.head_dim as int;
                let cmds: Seq<CommandView> = self.finish_cmds(w, st, shared, p, score, window_idx, window_topk);
                let t: spec_fn(DevicePtr) -> Value = run(s, cmds);
                let groups: Option<int> = Self::groups_completed(w, m, p.start_pos as int);
                let rows_b: DevicePtr = if ratio == 0 {
                    p.rows_a
                } else if groups is Some {
                    st.compress_kv->0
                } else {
                    shared.compress_kv->0
                };
                let heads: Value = self.attended_heads(
                    w,
                    p,
                    s(self.buf.q),
                    s(
                        if p.start_pos == 0 {
                            self.buf.kv
                        } else {
                            st.window
                        },
                    ),
                    rows_b,
                    self.attended_idx(w, shared, p, score, window_idx, window_topk),
                    window_topk + self.attended(w, shared, p, score).1,
                    s,
                );
                &&& t(self.buf.o) == heads
                &&& t(self.buf.out) == self.projected_output(w, heads, s(self.buf.head_pos), m, s)
                &&& groups matches Some(g) ==> exists|i: int|
                    {
                        &&& 0 <= i < cmds.len()
                        &&& #[trigger] cmds[i] matches CommandView::Launch { kernel, .. }
                        &&& kernel == Kernel::AttnSparseAttn
                        &&& run(s, cmds.take(i))(
                            offset_by(st.compress_kv->0, (p.start_pos as int / ratio) * (hd * 2)),
                        ) == Value::Copied {
                            of: Box::new(
                                self.cached_latents(
                                    s(self.buf.latent),
                                    s(self.buf.fc_yarn),
                                    g,
                                    p.start_pos as int,
                                    ratio,
                                ),
                            ),
                            bytes: g * (hd * 2),
                        }
                    }
            }),
    {
        let m: int = p.m as int;
        let sp: int = p.start_pos as int;
        let ratio: int = w.role.ratio as int;
        let hd: int = self.cfg.head_dim as int;
        let none: Seq<CommandView> = seq![];
        let idx: Seq<i32> = self.attended_idx(w, shared, p, score, window_idx, window_topk);
        let topk: int = window_topk + self.attended(w, shared, p, score).1;
        let rows_b: Option<DevicePtr> = Self::compressed_rows(w, st, shared, p);
        let cmds: Seq<CommandView> = self.finish_cmds(w, st, shared, p, score, window_idx, window_topk);
        let b: Seq<CommandView> = self.attend_cmds(w, p, rows_b, idx, topk);
        let ring: int = self.cfg.window * (hd * 2);
        lemma_mul_le(1, self.cfg.window as int, hd * 2);
        self.lemma_places();
        self.lemma_inputs_outside(w, x);
        self.lemma_apart(st.window, ring, w, x);
        Self::lemma_completed(w, m, sp);
        if p.groups is Some {
            let cache: DevicePtr = st.compress_kv->0;
            let g: int = p.groups->0 as int;
            let n: int = (self.cfg.max_seq as int / ratio) * (hd * 2);
            let a: Seq<CommandView> = self.latent_cmds(cache, g, sp, ratio);
            assert(cmds == a + b);
            lemma_run_append(s, a, b);
            let t1: spec_fn(DevicePtr) -> Value = run(s, a);
            self.lemma_apart(cache, n, w, x);
            assert((self.cfg.max_seq as int / ratio) * self.cfg.head_dim * 2 == n) by (nonlinear_arith)
                requires
                    n == (self.cfg.max_seq as int / ratio) * (hd * 2),
                    hd == self.cfg.head_dim,
            ;
            self.lemma_latents_kept(cache, m, sp, ratio, s);
            self.lemma_attended(w, st, x, p, rows_b, idx, topk, t1);
            assert(within(st.window, st.window, ring));
            assert(!within(st.window, cache, n));
            assert(t1(st.window) == s(st.window));
            assert forall|k: int| 0 <= k < self.cfg.groups implies t1(#[trigger] self.group_weights(w, k)) == s(
                self.group_weights(w, k),
            ) by {
                assert(self.place(self.group_weights(w, k)) == -1);
            }
            let heads: Value = self.attended_heads(w, p, s(self.buf.q), s(p.rows_a), cache, idx, topk, s);
            let back: Value = Value::Rotated {
                x: Box::new(Value::Copied { of: Box::new(heads), bytes: m * self.cfg.n_heads * self.cfg.head_dim * 2 }),
                pos: Box::new(s(self.buf.head_pos)),
                table: Box::new(self.table_of(w, s)),
                rows: (m * self.cfg.n_heads) as u32,
                row_len: self.cfg.head_dim as u32,
                rope_dim: self.cfg.rope_dim as u32,
                inverse: true,
            };
            self.lemma_grouped_output_reads(w, back, m, self.cfg.groups as int, t1, s);
            let i: int = (a.len() + 1) as int;
            assert(cmds[i] == b[1]);
            assert(cmds.take(i) =~= a + seq![b[0]]);
            lemma_run_append(s, a, seq![b[0]]);
            lemma_run_one(t1, b[0]);
            let at: DevicePtr = offset_by(cache, (sp / ratio) * (hd * 2));
            lemma_groups_in_range(&self.cfg, m, sp, ratio);
            lemma_row_bounds(sp / ratio, self.cfg.max_seq as int / ratio, hd * 2);
            assert(within(at, cache, n));
            assert(self.place(self.buf.idx_dev) == 17);
            assert(at != self.buf.idx_dev);
        } else {
            assert(cmds =~= b);
            self.lemma_attended(w, st, x, p, rows_b, idx, topk, s);
        }
    }
}

impl AttnV41 {
    /// The rotation that the heads' outputs end with undoes the one that the
    /// queries began with: the same rows are rotated to the same positions with
    /// the same table, in the opposite direction. Both are with the YaRN table
    /// on a compressed layer, with the plain one on the others.
    pub proof fn lemma_output_is_rotated_back(
        &self,
        w: &AttnV41LayerWeights,
        st: &AttnV41LayerState,
        before: &SharedV41,
        shared: &SharedV41,
        x: DevicePtr,
        m: usize,
        start_pos: usize,
        score: Seq<u32>,
        window_idx: Seq<i32>,
        window_topk: int,
        s: spec_fn(DevicePtr) -> Value,
    )
        requires
            self.takes(w, st, before, x, m, start_pos),
            self.groups_are_apart(w, st),
            self.finish_error(w, st, shared, self.pending_of(w, st, m, start_pos), score, window_topk) is None,
        ensures
            ({
                let p: AttnPending = self.pending_of(w, st, m, start_pos);
                let t: spec_fn(DevicePtr) -> Value = run(
                    s,
                    self.forward_cmds(w, st, before, x, m as int, start_pos as int),
                );
                let u: spec_fn(DevicePtr) -> Value = run(
                    t,
                    self.finish_cmds(w, st, shared, p, score, window_idx, window_topk),
                );
                &&& t(self.buf.q) matches Value::Rotated { x: _, pos, table, rows, row_len, rope_dim, inverse }
                &&& !inverse
                &&& *table == s(
                    if w.role.ratio > 0 {
                        self.buf.fc_yarn
                    } else {
                        self.buf.fc_plain
                    },
                )
                &&& u(self.buf.o) matches Value::Attended { q, .. }
                &&& *q == t(self.buf.q)
                &&& u(self.buf.out) == product(
                    self.grouped_output(
                        w,
                        Value::Rotated {
                            x: Box::new(
                                Value::Copied {
                                    of: Box::new(u(self.buf.o)),
                                    bytes: m * self.cfg.n_heads * self.cfg.head_dim * 2,
                                },
                            ),
                            pos,
                            table,
                            rows,
                            row_len,
                            rope_dim,
                            inverse: true,
                        },
                        m as int,
                        self.cfg.groups as int,
                        t,
                    ),
                    t(w.wo_b),
                    m as int,
                    self.cfg.dim as int,
                    self.cfg.groups * self.cfg.o_rank,
                )
            }),
    {
        let t: spec_fn(DevicePtr) -> Value = run(s, self.forward_cmds(w, st, before, x, m as int, start_pos as int));
        let p: AttnPending = self.pending_of(w, st, m, start_pos);
        self.lemma_forward_computes(w, st, before, x, m, start_pos, s);
        self.lemma_finish_computes(w, st, shared, x, p, score, window_idx, window_topk, t);
    }
}

/// f32 `a[m, k] . w[n, k]`.
pub open spec fn product_f32(a: Value, w: Value, m: int, n: int, k: int) -> Value {
    Value::ProductF32 { a: Box::new(a), w: Box::new(w), m: m as u32, n: n as u32, k: k as u32 }
}

/// An address among the `n` bytes from `p` on.
pub open spec fn within(q: DevicePtr, p: DevicePtr, n: int) -> bool {
    p.0 <= q.0 < p.0 + n
}

/// bf16 `a[m, k] . w[n, k]`.
pub open spec fn product(a: Value, w: Value, m: int, n: int, k: int) -> Value {
    Value::Product { a: Box::new(a), w: Box::new(w), m: m as u32, n: n as u32, k: k as u32 }
}

} // verus!
