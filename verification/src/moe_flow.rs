//! What an expert layer computes: the values that its commands leave in the
//! workspaces, as expressions of its input, its weights and its routing.

use crate::bytes::{le32, le64};
use crate::dataflow::{
    covers, launch_target, lemma_div_up_covers, lemma_place_among, lemma_run_append, lemma_run_few, lemma_run_one, num_arg,
    place_among, run, step, Value,
};
use crate::device::{div_up_of, offset_by, Arg, BlockFormat, CommandView, DevicePtr, Kernel};
use crate::moe::{
    pointer_bytes, token_row_bytes, weight_bytes, ExpertSlot, MoeV41, MoeV41Buffers, MoeV41LayerWeights,
    ResidentMat,
};
use crate::moe_laws::{lemma_pointer_table, lemma_turn_reads_its_assignments};
use crate::moe_plan::{
    group_major, lemma_every_assignment_has_one_turn, lemma_group_major, lemma_members_are_distinct_tokens, lemma_plan,
    lemma_single_token_plan, members, plan_of, routing_is_sound, PlanStep,
};
use crate::rows::{concat_rows, lemma_mul_le, row};
use vstd::prelude::*;

verus! {

impl MoeV41 {
    /// The workspaces.
    pub open spec fn workspaces(&self) -> Seq<DevicePtr> {
        let b: MoeV41Buffers = self.buf;
        seq![
            b.logits,
            b.a_rows,
            b.a_q8,
            b.gate_out,
            b.up_out,
            b.h,
            b.h_q8,
            b.down_out,
            b.rows_dev,
            b.weight_dev,
            b.ptrs_dev,
            b.sg,
            b.su,
            b.sh,
            b.sd,
            b.acc,
            b.out,
        ]
    }

    /// The number of a workspace, -1 of any other address.
    #[verifier::opaque]
    pub open spec fn place(&self, p: DevicePtr) -> int {
        place_among(self.workspaces(), p)
    }

    proof fn lemma_places(&self)
        requires
            self.workspaces().no_duplicates(),
        ensures
            self.place(self.buf.logits) == 0,
            self.place(self.buf.a_rows) == 1,
            self.place(self.buf.a_q8) == 2,
            self.place(self.buf.gate_out) == 3,
            self.place(self.buf.up_out) == 4,
            self.place(self.buf.h) == 5,
            self.place(self.buf.h_q8) == 6,
            self.place(self.buf.down_out) == 7,
            self.place(self.buf.rows_dev) == 8,
            self.place(self.buf.weight_dev) == 9,
            self.place(self.buf.ptrs_dev) == 10,
            self.place(self.buf.sg) == 11,
            self.place(self.buf.su) == 12,
            self.place(self.buf.sh) == 13,
            self.place(self.buf.sd) == 14,
            self.place(self.buf.acc) == 15,
            self.place(self.buf.out) == 16,
    {
        reveal(MoeV41::place);
        let all: Seq<DevicePtr> = self.workspaces();
        assert forall|i: int| 0 <= i < all.len() implies place_among(all, #[trigger] all[i]) == i by {
            lemma_place_among(all, i);
        }
        let b: MoeV41Buffers = self.buf;
        assert(all[0] == b.logits && all[1] == b.a_rows && all[2] == b.a_q8 && all[3] == b.gate_out && all[4]
            == b.up_out && all[5] == b.h && all[6] == b.h_q8 && all[7] == b.down_out && all[8] == b.rows_dev);
        assert(all[9] == b.weight_dev && all[10] == b.ptrs_dev && all[11] == b.sg && all[12] == b.su && all[13]
            == b.sh && all[14] == b.sd && all[15] == b.acc && all[16] == b.out);
    }

    /// The kernels count in 32 bits: a call's values do, and there are any.
    pub open spec fn counts(&self, m: int) -> bool {
        &&& 1 <= m
        &&& 0 < self.cfg.dim
        &&& 0 < self.cfg.inter
        &&& m * self.cfg.dim <= u32::MAX
        &&& m * self.cfg.inter <= u32::MAX
    }

    proof fn lemma_per_value(s: spec_fn(DevicePtr) -> Value, kernel: Kernel, n: int, args: Seq<Arg>)
        requires
            0 < n <= u32::MAX,
        ensures
            ({
                let cmds: Seq<CommandView> = Self::per_value_cmds(kernel, n, args);
                &&& cmds.len() == 1
                &&& run(s, cmds) == step(s, cmds[0])
                &&& cmds[0] matches CommandView::Launch { kernel: k, grid, block, args: a }
                &&& k == kernel
                &&& a == args
                &&& grid.x * block.x >= n
                &&& grid.y == 1
                &&& grid.z == 1
                &&& block.y == 1
                &&& block.z == 1
            }),
    {
        lemma_run_one(s, Self::per_value_cmds(kernel, n, args)[0]);
        lemma_div_up_covers(n as u32, 256);
    }

    /// `x[rows, k] . w[n, k]` with `w` in blocks.
    pub open spec fn block_product(format: BlockFormat, w: DevicePtr, x: Value, rows: int, n: int, k: int) -> Value {
        Value::BlockProduct { format, w, x: Box::new(x), rows: rows as u32, n: n as u32, k: k as u32 }
    }

    proof fn lemma_one_product(
        s: spec_fn(DevicePtr) -> Value,
        format: BlockFormat,
        a: DevicePtr,
        a_q8: DevicePtr,
        w: DevicePtr,
        out: DevicePtr,
        rows: int,
        n: int,
        k: int,
    )
        ensures
            ({
                let t: spec_fn(DevicePtr) -> Value = run(
                    s,
                    Self::block_product_cmds(format, a, a_q8, seq![(w, out)], rows, n, k),
                );
                &&& t(out) == Self::block_product(format, w, s(a), rows, n, k)
                &&& forall|p: DevicePtr| p != out && p != a_q8 ==> #[trigger] t(p) == s(p)
            }),
    {
        let cmds: Seq<CommandView> = Self::block_product_cmds(format, a, a_q8, seq![(w, out)], rows, n, k);
        lemma_run_few(s, cmds[0], cmds[1], cmds[1], cmds[1]);
        assert(cmds =~= seq![cmds[0], cmds[1]]);
    }

    proof fn lemma_two_products(
        s: spec_fn(DevicePtr) -> Value,
        format: BlockFormat,
        a: DevicePtr,
        a_q8: DevicePtr,
        w1: DevicePtr,
        out1: DevicePtr,
        w2: DevicePtr,
        out2: DevicePtr,
        rows: int,
        n: int,
        k: int,
    )
        requires
            out1 != a_q8,
            out2 != a_q8,
            out1 != out2,
        ensures
            ({
                let t: spec_fn(DevicePtr) -> Value = run(
                    s,
                    Self::block_product_cmds(format, a, a_q8, seq![(w1, out1), (w2, out2)], rows, n, k),
                );
                &&& t(out1) == Self::block_product(format, w1, s(a), rows, n, k)
                &&& t(out2) == Self::block_product(format, w2, s(a), rows, n, k)
                &&& forall|p: DevicePtr| p != out1 && p != out2 && p != a_q8 ==> #[trigger] t(p) == s(p)
            }),
    {
        let cmds: Seq<CommandView> = Self::block_product_cmds(
            format,
            a,
            a_q8,
            seq![(w1, out1), (w2, out2)],
            rows,
            n,
            k,
        );
        lemma_run_few(s, cmds[0], cmds[1], cmds[2], cmds[2]);
        assert(cmds =~= seq![cmds[0], cmds[1], cmds[2]]);
    }

    /// What an expert makes of the rows of its tokens: its down projection of
    /// the gated activation of its gate and up projections, each row times its
    /// routing weight.
    pub open spec fn expert_rows(&self, x: Value, turn: PlanStep, slot: ExpertSlot) -> Value {
        let rows: int = turn.rows as int;
        let dim: int = self.cfg.dim as int;
        let inter: int = self.cfg.inter as int;
        let taken: Value = Value::Gathered {
            x: Box::new(x),
            list: offset_by(self.buf.rows_dev, 4 * turn.offset),
            rows: rows as u32,
            dim: dim as u32,
        };
        Self::block_product(
            BlockFormat::Q3K,
            slot.down,
            Value::Gated {
                gate: Box::new(Self::block_product(BlockFormat::Q2K, slot.gate, taken, rows, inter, dim)),
                up: Box::new(Self::block_product(BlockFormat::Q2K, slot.up, taken, rows, inter, dim)),
                weights: offset_by(self.buf.weight_dev, 4 * turn.offset),
                rows: rows as u32,
                inter: inter as u32,
                limit: self.cfg.swiglu_limit,
            },
            rows,
            dim,
            inter,
        )
    }

    /// The sum after the first `n` turns: from zeros, each turn's rows are
    /// added to the rows of the tokens that they were taken from.
    pub open spec fn added_up(&self, x: Value, m: int, plan: Seq<PlanStep>, slots: Seq<ExpertSlot>, n: int) -> Value
        decreases n,
    {
        if n <= 0 {
            Value::Filled(0, m * self.cfg.dim * 4)
        } else {
            Value::Added {
                to: Box::new(self.added_up(x, m, plan, slots, n - 1)),
                part: Box::new(self.expert_rows(x, plan[n - 1], slots[plan[n - 1].first as int])),
                list: offset_by(self.buf.rows_dev, 4 * plan[n - 1].offset),
                rows: plan[n - 1].rows as u32,
                dim: self.cfg.dim as u32,
            }
        }
    }

    /// The sum of a single token's experts: the same with one launch for all of
    /// them, the experts' matrices by the pointer table.
    pub open spec fn added_at_once(&self, x: Value, experts: int) -> Value {
        let b: MoeV41Buffers = self.buf;
        let dim: u32 = self.cfg.dim as u32;
        let inter: u32 = self.cfg.inter as u32;
        let ne: u32 = experts as u32;
        let first = |at: int|
            Value::ExpertProducts {
                format: BlockFormat::Q2K,
                table: offset_by(b.ptrs_dev, at),
                x: Box::new(x),
                rows: 1,
                n: inter,
                k: dim,
                experts: ne,
                stride: 0,
            };
        Value::Added {
            to: Box::new(Value::Filled(0, self.cfg.dim * 4)),
            part: Box::new(
                Value::ExpertProducts {
                    format: BlockFormat::Q3K,
                    table: offset_by(b.ptrs_dev, 2 * experts * 8),
                    x: Box::new(
                        Value::Gated {
                            gate: Box::new(first(0)),
                            up: Box::new(first(experts * 8)),
                            weights: b.weight_dev,
                            rows: ne,
                            inter,
                            limit: self.cfg.swiglu_limit,
                        },
                    ),
                    rows: 1,
                    n: dim,
                    k: inter,
                    experts: ne,
                    stride: self.row_inter as u32,
                },
            ),
            list: b.rows_dev,
            rows: ne,
            dim,
        }
    }

    proof fn lemma_turn(&self, x: DevicePtr, turn: PlanStep, slot: ExpertSlot, m: int, s: spec_fn(DevicePtr) -> Value)
        requires
            self.workspaces().no_duplicates(),
            self.place(x) == -1,
            self.counts(m),
            0 < turn.rows <= m,
        ensures
            ({
                let t: spec_fn(DevicePtr) -> Value = run(s, self.turn_cmds(x, turn, slot));
                &&& t(self.buf.acc) == Value::Added {
                    to: Box::new(s(self.buf.acc)),
                    part: Box::new(self.expert_rows(s(x), turn, slot)),
                    list: offset_by(self.buf.rows_dev, 4 * turn.offset),
                    rows: turn.rows as u32,
                    dim: self.cfg.dim as u32,
                }
                &&& forall|p: DevicePtr|
                    (self.place(p) < 1 || 7 < self.place(p)) && p != self.buf.acc ==> #[trigger] t(p) == s(p)
            }),
    {
        let b: MoeV41Buffers = self.buf;
        let r: int = turn.rows as int;
        let dim: int = self.cfg.dim as int;
        let inter: int = self.cfg.inter as int;
        let list: DevicePtr = offset_by(b.rows_dev, turn.offset * 4);
        let weights: DevicePtr = offset_by(b.weight_dev, turn.offset * 4);
        let cmds: Seq<CommandView> = self.turn_cmds(x, turn, slot);
        let c1: Seq<CommandView> = seq![cmds[0]];
        let c2: Seq<CommandView> = Self::block_product_cmds(
            BlockFormat::Q2K,
            b.a_rows,
            b.a_q8,
            seq![(slot.gate, b.gate_out), (slot.up, b.up_out)],
            r,
            inter,
            dim,
        );
        let args: Seq<Arg> = seq![
            Arg::Ptr(b.gate_out),
            Arg::Ptr(b.up_out),
            Arg::Ptr(weights),
            Arg::Ptr(b.h),
            Arg::U32(r as u32),
            Arg::U32(self.cfg.inter as u32),
            Arg::F32(self.cfg.swiglu_limit),
        ];
        let c3: Seq<CommandView> = Self::per_value_cmds(Kernel::MoeSwiglu, r * inter, args);
        let c4: Seq<CommandView> = Self::block_product_cmds(
            BlockFormat::Q3K,
            b.h,
            b.h_q8,
            seq![(slot.down, b.down_out)],
            r,
            dim,
            inter,
        );
        let c5: Seq<CommandView> = seq![cmds.last()];
        lemma_mul_le(1, r, inter);
        lemma_mul_le(r, m, inter);
        lemma_mul_le(1, inter, m);
        assert(inter * m == m * inter && r <= r * inter) by (nonlinear_arith)
            requires
                inter >= 1,
                r >= 1,
        ;
        assert(cmds =~= c1 + c2 + c3 + c4 + c5);
        let t1: spec_fn(DevicePtr) -> Value = run(s, c1);
        let t2: spec_fn(DevicePtr) -> Value = run(t1, c2);
        let t3: spec_fn(DevicePtr) -> Value = run(t2, c3);
        let t4: spec_fn(DevicePtr) -> Value = run(t3, c4);
        lemma_run_one(s, cmds[0]);
        lemma_run_append(s, c1, c2);
        lemma_run_append(s, c1 + c2, c3);
        lemma_run_append(s, c1 + c2 + c3, c4);
        lemma_run_append(s, c1 + c2 + c3 + c4, c5);
        lemma_run_one(t4, cmds.last());
        self.lemma_places();
        Self::lemma_two_products(
            t1,
            BlockFormat::Q2K,
            b.a_rows,
            b.a_q8,
            slot.gate,
            b.gate_out,
            slot.up,
            b.up_out,
            r,
            inter,
            dim,
        );
        Self::lemma_per_value(t2, Kernel::MoeSwiglu, r * inter, args);
        Self::lemma_one_product(t3, BlockFormat::Q3K, b.h, b.h_q8, slot.down, b.down_out, r, dim, inter);
        assert(t1(b.a_rows) == Value::Gathered { x: Box::new(s(x)), list, rows: r as u32, dim: dim as u32 });
        assert(t3(b.h) == Value::Gated {
            gate: Box::new(t2(b.gate_out)),
            up: Box::new(t2(b.up_out)),
            weights,
            rows: r as u32,
            inter: inter as u32,
            limit: self.cfg.swiglu_limit,
        });
        assert(t4(b.down_out) == self.expert_rows(s(x), turn, slot));
        assert(t4(b.acc) == s(b.acc));
    }

    proof fn lemma_turns(
        &self,
        x: DevicePtr,
        m: int,
        plan: Seq<PlanStep>,
        slots: Seq<ExpertSlot>,
        n: int,
        s: spec_fn(DevicePtr) -> Value,
    )
        requires
            self.workspaces().no_duplicates(),
            self.place(x) == -1,
            self.counts(m),
            0 <= n <= plan.len(),
            forall|i: int| 0 <= i < plan.len() ==> 0 < (#[trigger] plan[i]).rows <= m,
            s(self.buf.acc) == Value::Filled(0, m * self.cfg.dim * 4),
        ensures
            ({
                let t: spec_fn(DevicePtr) -> Value = run(
                    s,
                    concat_rows(n as nat, |i: int| self.turn_cmds(x, plan[i], slots[plan[i].first as int])),
                );
                &&& t(self.buf.acc) == self.added_up(s(x), m, plan, slots, n)
                &&& forall|p: DevicePtr|
                    (self.place(p) < 1 || 7 < self.place(p)) && p != self.buf.acc ==> #[trigger] t(p) == s(p)
            }),
        decreases n,
    {
        let f = |i: int| self.turn_cmds(x, plan[i], slots[plan[i].first as int]);
        if n == 0 {
            let none: Seq<CommandView> = seq![];
            assert(concat_rows(0, f) =~= none);
            lemma_run_one(s, CommandView::Synchronize);
        } else {
            self.lemma_turns(x, m, plan, slots, n - 1, s);
            self.lemma_places();
            let before: Seq<CommandView> = concat_rows((n - 1) as nat, f);
            let turn: PlanStep = plan[n - 1];
            let slot: ExpertSlot = slots[turn.first as int];
            assert(f(n - 1) == self.turn_cmds(x, turn, slot));
            lemma_run_append(s, before, self.turn_cmds(x, turn, slot));
            self.lemma_turn(x, turn, slot, m, run(s, before));
        }
    }
}

impl MoeV41 {
    proof fn lemma_single_token(
        &self,
        x: DevicePtr,
        plan: Seq<PlanStep>,
        slots: Seq<ExpertSlot>,
        s: spec_fn(DevicePtr) -> Value,
    )
        requires
            self.workspaces().no_duplicates(),
            self.place(x) == -1,
            0 < self.cfg.inter,
            0 < plan.len(),
            plan.len() * self.cfg.inter <= u32::MAX,
            0 < self.row_inter <= u32::MAX,
            s(self.buf.acc) == Value::Filled(0, self.cfg.dim * 4),
        ensures
            ({
                let t: spec_fn(DevicePtr) -> Value = run(s, self.single_token_cmds(x, plan, slots));
                &&& t(self.buf.acc) == self.added_at_once(s(x), plan.len() as int)
                &&& t(self.buf.ptrs_dev) == Value::Data(
                    pointer_bytes(plan, slots, 0) + pointer_bytes(plan, slots, 1) + pointer_bytes(plan, slots, 2),
                )
                &&& forall|p: DevicePtr|
                    (self.place(p) < 1 || 7 < self.place(p)) && p != self.buf.acc && p != self.buf.ptrs_dev
                        ==> #[trigger] t(p) == s(p)
            }),
    {
        let b: MoeV41Buffers = self.buf;
        let ne: int = plan.len() as int;
        let inter: int = self.cfg.inter as int;
        let cmds: Seq<CommandView> = self.single_token_cmds(x, plan, slots);
        let c1: Seq<CommandView> = seq![cmds[0], cmds[1], cmds[2], cmds[3]];
        let args: Seq<Arg> = seq![
            Arg::Ptr(b.gate_out),
            Arg::Ptr(b.up_out),
            Arg::Ptr(b.weight_dev),
            Arg::Ptr(b.h),
            Arg::U32(ne as u32),
            Arg::U32(self.cfg.inter as u32),
            Arg::F32(self.cfg.swiglu_limit),
        ];
        let c2: Seq<CommandView> = Self::per_value_cmds(Kernel::MoeSwiglu, ne * inter, args);
        lemma_mul_le(1, ne, inter);
        assert(ne <= ne * inter && inter <= ne * inter) by (nonlinear_arith)
            requires
                ne >= 1,
                inter >= 1,
        ;
        let t1: spec_fn(DevicePtr) -> Value = run(s, c1);
        Self::lemma_per_value(t1, Kernel::MoeSwiglu, ne * inter, args);
        let c3: Seq<CommandView> = seq![cmds[5], cmds[6], cmds[7]];
        assert(cmds =~= c1 + c2 + c3);
        let t2: spec_fn(DevicePtr) -> Value = run(t1, c2);
        lemma_run_few(s, cmds[0], cmds[1], cmds[2], cmds[3]);
        lemma_run_append(s, c1, c2);
        lemma_run_append(s, c1 + c2, c3);
        lemma_run_few(t2, cmds[5], cmds[6], cmds[7], cmds[7]);
        self.lemma_places();
        assert(offset_by(b.ptrs_dev, 0) == b.ptrs_dev);
        let u1: spec_fn(DevicePtr) -> Value = step(s, cmds[0]);
        let u2: spec_fn(DevicePtr) -> Value = step(u1, cmds[1]);
        assert(u2(b.a_q8) == Value::Q8 { x: Box::new(s(x)), rows: 1, k: self.cfg.dim as u32 });
        let v1: spec_fn(DevicePtr) -> Value = step(t2, cmds[5]);
        assert(v1(b.h_q8) == Value::Q8 { x: Box::new(t2(b.h)), rows: ne as u32, k: self.cfg.inter as u32 });
        assert(t2(b.acc) == s(b.acc));
        let part: Value = step(v1, cmds[6])(b.down_out);
        let whole: Value = self.added_at_once(s(x), ne);
        assert(whole matches Value::Added { part: p, .. } ==> *p == part);
    }

    /// A product of the shared expert.
    pub open spec fn resident_product(
        w: ResidentMat,
        x: Value,
        m: int,
        n: int,
        k: int,
        s: spec_fn(DevicePtr) -> Value,
    ) -> Value {
        match w {
            ResidentMat::Bf16(p) => Value::Product {
                a: Box::new(x),
                w: Box::new(s(p)),
                m: m as u32,
                n: n as u32,
                k: k as u32,
            },
            ResidentMat::Q2K(p) => Self::block_product(BlockFormat::Q2K, p, x, m, n, k),
            ResidentMat::Q3K(p) => Self::block_product(BlockFormat::Q3K, p, x, m, n, k),
        }
    }

    /// A matrix of the shared expert is none of the workspaces.
    pub open spec fn is_resident(&self, w: ResidentMat) -> bool {
        match w {
            ResidentMat::Bf16(p) => self.place(p) == -1,
            ResidentMat::Q2K(p) => self.place(p) == -1,
            ResidentMat::Q3K(p) => self.place(p) == -1,
        }
    }

    proof fn lemma_resident(
        s: spec_fn(DevicePtr) -> Value,
        a: DevicePtr,
        a_q8: DevicePtr,
        w: ResidentMat,
        out: DevicePtr,
        m: int,
        n: int,
        k: int,
    )
        ensures
            ({
                let t: spec_fn(DevicePtr) -> Value = run(s, Self::resident_cmds(a, a_q8, w, out, m, n, k));
                &&& t(out) == Self::resident_product(w, s(a), m, n, k, s)
                &&& forall|p: DevicePtr| p != out && p != a_q8 ==> #[trigger] t(p) == s(p)
            }),
    {
        match w {
            ResidentMat::Bf16(p) => {
                let cmds: Seq<CommandView> = Self::resident_cmds(a, a_q8, w, out, m, n, k);
                lemma_run_one(s, cmds[0]);
                assert(cmds =~= seq![cmds[0]]);
            },
            ResidentMat::Q2K(p) => Self::lemma_one_product(s, BlockFormat::Q2K, a, a_q8, p, out, m, n, k),
            ResidentMat::Q3K(p) => Self::lemma_one_product(s, BlockFormat::Q3K, a, a_q8, p, out, m, n, k),
        }
    }

    /// What the shared expert makes of all rows: `w2` of the gated activation of
    /// `w1` and `w3`, without weights.
    pub open spec fn shared_rows(&self, w: &MoeV41LayerWeights, x: Value, m: int, s: spec_fn(DevicePtr) -> Value) -> Value {
        let dim: int = self.cfg.dim as int;
        let inter: int = self.cfg.inter as int;
        Self::resident_product(
            w.shared_w2,
            Value::Gated {
                gate: Box::new(Self::resident_product(w.shared_w1, x, m, inter, dim, s)),
                up: Box::new(Self::resident_product(w.shared_w3, x, m, inter, dim, s)),
                weights: DevicePtr(0),
                rows: m as u32,
                inter: inter as u32,
                limit: self.cfg.swiglu_limit,
            },
            m,
            dim,
            inter,
            s,
        )
    }

    #[verifier::spinoff_prover]
    proof fn lemma_shared(&self, w: &MoeV41LayerWeights, x: DevicePtr, m: int, s: spec_fn(DevicePtr) -> Value)
        requires
            self.workspaces().no_duplicates(),
            self.place(x) == -1,
            self.is_resident(w.shared_w1),
            self.is_resident(w.shared_w2),
            self.is_resident(w.shared_w3),
            self.counts(m),
        ensures
            ({
                let t: spec_fn(DevicePtr) -> Value = run(s, self.shared_cmds(w, x, m));
                let n: u32 = (m * self.cfg.dim) as u32;
                &&& t(self.buf.out) == Value::Narrowed {
                    x: Box::new(
                        Value::Summed {
                            a: Box::new(s(self.buf.acc)),
                            b: Box::new(self.shared_rows(w, s(x), m, s)),
                            n,
                        },
                    ),
                    n,
                }
                &&& t(self.buf.rows_dev) == s(self.buf.rows_dev)
                &&& t(self.buf.weight_dev) == s(self.buf.weight_dev)
                &&& t(self.buf.ptrs_dev) == s(self.buf.ptrs_dev)
            }),
    {
        let b: MoeV41Buffers = self.buf;
        let dim: int = self.cfg.dim as int;
        let inter: int = self.cfg.inter as int;
        let c1: Seq<CommandView> = Self::resident_cmds(x, b.a_q8, w.shared_w1, b.sg, m, inter, dim);
        let c2: Seq<CommandView> = Self::resident_cmds(x, b.a_q8, w.shared_w3, b.su, m, inter, dim);
        let gated: Seq<Arg> = seq![
            Arg::Ptr(b.sg),
            Arg::Ptr(b.su),
            Arg::Ptr(DevicePtr(0)),
            Arg::Ptr(b.sh),
            Arg::U32(m as u32),
            Arg::U32(self.cfg.inter as u32),
            Arg::F32(self.cfg.swiglu_limit),
        ];
        let c3: Seq<CommandView> = Self::per_value_cmds(Kernel::MoeSwiglu, m * inter, gated);
        let c4: Seq<CommandView> = Self::resident_cmds(b.sh, b.h_q8, w.shared_w2, b.sd, m, dim, inter);
        let summed: Seq<Arg> = seq![Arg::Ptr(b.acc), Arg::Ptr(b.sd), Arg::U32((m * dim) as u32)];
        let c5: Seq<CommandView> = Self::per_value_cmds(Kernel::MoeAccumulate, m * dim, summed);
        let narrowed: Seq<Arg> = seq![Arg::Ptr(b.acc), Arg::Ptr(b.out), Arg::U32((m * dim) as u32)];
        let c6: Seq<CommandView> = Self::per_value_cmds(Kernel::MoeFinish, m * dim, narrowed);
        assert(self.shared_cmds(w, x, m) == c1 + c2 + c3 + c4 + c5 + c6);
        lemma_mul_le(1, m, inter);
        lemma_mul_le(1, m, dim);
        assert(m <= m * inter && inter <= m * inter) by (nonlinear_arith)
            requires
                m >= 1,
                inter >= 1,
        ;
        let t1: spec_fn(DevicePtr) -> Value = run(s, c1);
        let t2: spec_fn(DevicePtr) -> Value = run(t1, c2);
        let t3: spec_fn(DevicePtr) -> Value = run(t2, c3);
        let t4: spec_fn(DevicePtr) -> Value = run(t3, c4);
        let t5: spec_fn(DevicePtr) -> Value = run(t4, c5);
        lemma_run_append(s, c1, c2);
        lemma_run_append(s, c1 + c2, c3);
        lemma_run_append(s, c1 + c2 + c3, c4);
        lemma_run_append(s, c1 + c2 + c3 + c4, c5);
        lemma_run_append(s, c1 + c2 + c3 + c4 + c5, c6);
        self.lemma_places();
        Self::lemma_resident(s, x, b.a_q8, w.shared_w1, b.sg, m, inter, dim);
        Self::lemma_resident(t1, x, b.a_q8, w.shared_w3, b.su, m, inter, dim);
        Self::lemma_per_value(t2, Kernel::MoeSwiglu, m * inter, gated);
        Self::lemma_resident(t3, b.sh, b.h_q8, w.shared_w2, b.sd, m, dim, inter);
        Self::lemma_per_value(t4, Kernel::MoeAccumulate, m * dim, summed);
        Self::lemma_per_value(t5, Kernel::MoeFinish, m * dim, narrowed);
        assert(t2(b.sg) == Self::resident_product(w.shared_w1, s(x), m, inter, dim, s));
        assert(t2(b.su) == Self::resident_product(w.shared_w3, s(x), m, inter, dim, s));
        assert(t3(b.sh) == Value::Gated {
            gate: Box::new(t2(b.sg)),
            up: Box::new(t2(b.su)),
            weights: DevicePtr(0),
            rows: m as u32,
            inter: inter as u32,
            limit: self.cfg.swiglu_limit,
        });
        assert(t4(b.sd) == self.shared_rows(w, s(x), m, s));
        assert(t4(b.acc) == s(b.acc));
    }

    /// What a call of an expert layer computes: the sum of its experts' rows and
    /// the shared expert's, in bf16. The experts' rows are added turn by turn,
    /// with the token rows and the routing weights of the call uploaded before
    /// anything else and kept to the end; those of a single token at once, by a table of pointers. Where
    /// the time is to be told, the call ends with a wait.
    pub proof fn lemma_forward_computes(
        &self,
        w: &MoeV41LayerWeights,
        x: DevicePtr,
        m: int,
        weights: Seq<u32>,
        indices: Seq<usize>,
        slots: Seq<ExpertSlot>,
        s: spec_fn(DevicePtr) -> Value,
    )
        requires
            self.workspaces().no_duplicates(),
            self.place(x) == -1,
            self.is_resident(w.shared_w1),
            self.is_resident(w.shared_w2),
            self.is_resident(w.shared_w3),
            self.counts(m),
            0 < self.cfg.topk,
            self.cfg.topk * self.cfg.inter <= u32::MAX,
            0 < self.row_inter <= u32::MAX,
            indices.len() <= usize::MAX,
            routing_is_sound(indices, m, self.cfg.topk as int, self.cfg.n_routed as int),
        ensures
            ({
                let order: Seq<usize> = group_major(indices, self.cfg.n_routed as int);
                let plan: Seq<PlanStep> = plan_of(indices, self.cfg.n_routed as int);
                let cmds: Seq<CommandView> = self.forward_cmds(w, x, m, weights, indices, slots);
                let t: spec_fn(DevicePtr) -> Value = run(s, cmds);
                let n: u32 = (m * self.cfg.dim) as u32;
                &&& t(self.buf.out) == Value::Narrowed {
                    x: Box::new(
                        Value::Summed {
                            a: Box::new(
                                if m == 1 {
                                    self.added_at_once(s(x), self.cfg.topk as int)
                                } else {
                                    self.added_up(s(x), m, plan, slots, plan.len() as int)
                                },
                            ),
                            b: Box::new(self.shared_rows(w, s(x), m, s)),
                            n,
                        },
                    ),
                    n,
                }
                &&& self.timing_sync ==> cmds.last() is Synchronize
                &&& cmds[0] == (CommandView::UploadAsync {
                    data: token_row_bytes(order, self.cfg.topk as int),
                    dst: self.buf.rows_dev,
                })
                &&& cmds[1] == (CommandView::UploadAsync { data: weight_bytes(order, weights), dst: self.buf.weight_dev })
                &&& m == 1 ==> cmds[3] == (CommandView::UploadAsync {
                    data: pointer_bytes(plan, slots, 0) + pointer_bytes(plan, slots, 1) + pointer_bytes(plan, slots, 2),
                    dst: self.buf.ptrs_dev,
                })
                &&& t(self.buf.rows_dev) == Value::Data(token_row_bytes(order, self.cfg.topk as int))
                &&& t(self.buf.weight_dev) == Value::Data(weight_bytes(order, weights))
                &&& m == 1 ==> t(self.buf.ptrs_dev) == Value::Data(
                    pointer_bytes(plan, slots, 0) + pointer_bytes(plan, slots, 1) + pointer_bytes(plan, slots, 2),
                )
            }),
    {
        let b: MoeV41Buffers = self.buf;
        let topk: int = self.cfg.topk as int;
        let n_routed: int = self.cfg.n_routed as int;
        let order: Seq<usize> = group_major(indices, n_routed);
        let plan: Seq<PlanStep> = plan_of(indices, n_routed);
        let cmds: Seq<CommandView> = self.forward_cmds(w, x, m, weights, indices, slots);
        let c1: Seq<CommandView> = seq![cmds[0], cmds[1], cmds[2]];
        let c2: Seq<CommandView> = self.routed_cmds(x, m, plan, slots);
        let c3: Seq<CommandView> = self.shared_cmds(w, x, m);
        let none: Seq<CommandView> = seq![];
        let c4: Seq<CommandView> = if self.timing_sync {
            seq![CommandView::Synchronize]
        } else {
            none
        };
        assert(cmds =~= c1 + c2 + c3 + c4);
        let t1: spec_fn(DevicePtr) -> Value = run(s, c1);
        let t2: spec_fn(DevicePtr) -> Value = run(t1, c2);
        let t3: spec_fn(DevicePtr) -> Value = run(t2, c3);
        lemma_run_few(s, cmds[0], cmds[1], cmds[2], cmds[2]);
        lemma_run_append(s, c1, c2);
        lemma_run_append(s, c1 + c2, c3);
        lemma_run_append(s, c1 + c2 + c3, c4);
        lemma_run_one(t3, CommandView::Synchronize);
        self.lemma_places();
        lemma_plan(indices, n_routed);
        assert forall|i: int| 0 <= i < plan.len() implies 0 < (#[trigger] plan[i]).rows <= m by {
            let turn: PlanStep = plan[i];
            assert(order.subrange(turn.offset as int, turn.offset + turn.rows).len() == turn.rows);
            lemma_members_are_distinct_tokens(indices, m, topk, n_routed, indices[turn.first as int] as int);
        }
        assert(t1(b.acc) == Value::Filled(0, m * self.cfg.dim * 4));
        if m == 1 {
            lemma_single_token_plan(indices, topk, n_routed);
            assert(1 * self.cfg.dim * 4 == self.cfg.dim * 4);
            self.lemma_single_token(x, plan, slots, t1);
        } else {
            self.lemma_turns(x, m, plan, slots, plan.len() as int, t1);
        }
        self.lemma_shared(w, x, m, t2);
        assert(self.shared_rows(w, s(x), m, t2) == self.shared_rows(w, s(x), m, s));
    }

    /// The router's logits are the product of the rows with its matrix, in f32,
    /// whichever way it is computed, and are ready to be read.
    pub proof fn lemma_route_computes(&self, w: &MoeV41LayerWeights, x: DevicePtr, m: int, s: spec_fn(DevicePtr) -> Value)
        requires
            1 <= m <= u32::MAX,
        ensures
            run(s, self.route_cmds(w, x, m))(self.buf.logits) == (Value::ProductF32 {
                a: Box::new(s(x)),
                w: Box::new(s(w.gate_w)),
                m: m as u32,
                n: self.cfg.n_routed as u32,
                k: self.cfg.dim as u32,
            }),
            self.route_cmds(w, x, m).last() is Synchronize,
    {
        let cmds: Seq<CommandView> = self.route_cmds(w, x, m);
        lemma_run_few(s, cmds[0], cmds[1], cmds[1], cmds[1]);
        assert(cmds =~= seq![cmds[0], cmds[1]]);
        lemma_div_up_covers(self.cfg.n_routed as u32, 64);
        lemma_div_up_covers(self.cfg.n_routed as u32, 16);
        lemma_div_up_covers(m as u32, 16);
        if let CommandView::Launch { kernel, grid, block, args } = cmds[0] {
            let n: u32 = self.cfg.n_routed as u32;
            if m <= 8 {
                assert(grid.x * block.x == div_up_of(n, 64) * 64);
                assert(grid.y * block.y == m as u32 * 1);
            } else {
                assert(grid.x * block.x == div_up_of(n, 16) * 16);
                assert(grid.y * block.y == div_up_of(m as u32, 16) * 16);
            }
            assert(covers(grid, block, num_arg(args, 4) as int, num_arg(args, 3) as int));
            assert(launch_target(kernel, args) == self.buf.logits);
        }
    }
}

/// Every assignment's row is added once, to the assignment's own token: there is
/// one turn and one row of it that is the assignment's. The turn is that of the
/// assignment's expert, and the entries that its gather, its activation and its
/// scatter read for that row, `4 * (offset + row)` bytes into the uploaded
/// lists, are the token and the routing weight of the assignment.
pub proof fn lemma_rows_go_to_their_tokens(
    indices: Seq<usize>,
    weights: Seq<u32>,
    m: int,
    topk: int,
    n_routed: int,
    a: int,
) -> (r: (int, int))
    requires
        0 <= n_routed,
        0 <= m,
        indices.len() <= usize::MAX,
        routing_is_sound(indices, m, topk, n_routed),
        0 <= a < indices.len(),
    ensures
        ({
            let (i, k) = r;
            let plan: Seq<PlanStep> = plan_of(indices, n_routed);
            let order: Seq<usize> = group_major(indices, n_routed);
            &&& 0 <= i < plan.len()
            &&& 0 <= k < plan[i].rows
            &&& indices[plan[i].first as int] == indices[a]
            &&& order[plan[i].offset + k] == a
            &&& row(token_row_bytes(order, topk), plan[i].offset + k, 4) == le32(((a / topk) as i32) as u32)
            &&& row(weight_bytes(order, weights), plan[i].offset + k, 4) == le32(weights[a])
            &&& forall|j: int, l: int|
                0 <= j < plan.len() && 0 <= l < plan[j].rows && #[trigger] order[plan[j].offset + l] == a ==> j == i
                    && l == k
        }),
{
    let plan: Seq<PlanStep> = plan_of(indices, n_routed);
    let order: Seq<usize> = group_major(indices, n_routed);
    lemma_plan(indices, n_routed);
    lemma_group_major(indices, n_routed);
    assert(indices[a] < n_routed);
    let i: int = lemma_every_assignment_has_one_turn(indices, n_routed, a);
    let stretch: Seq<usize> = order.subrange(plan[i].offset as int, plan[i].offset + plan[i].rows);
    let k: int = choose|k: int| 0 <= k < stretch.len() && stretch[k] == a as usize;
    assert(stretch == members(indices, indices[plan[i].first as int] as int, indices.len() as int));
    lemma_turn_reads_its_assignments(indices, weights, topk, n_routed, i, k);
    assert(order[plan[i].offset + k] == a);
    assert forall|j: int, l: int|
        0 <= j < plan.len() && 0 <= l < plan[j].rows && #[trigger] order[plan[j].offset + l] == a implies j == i && l == k by {
        let other: Seq<usize> = order.subrange(plan[j].offset as int, plan[j].offset + plan[j].rows);
        assert(other[l] == a as usize);
        assert(other.contains(a as usize));
        if j == i && l != k {
            assert(order[plan[i].offset + l] != order[plan[i].offset + k]);
        }
    }
    (i, k)
}

impl MoeV41 {
    /// What is given back: every workspace but the pointer table, each once.
    pub proof fn lemma_workspaces_are_given_back(&self, p: DevicePtr)
        requires
            self.workspaces().no_duplicates(),
        ensures
            self.buf.given_back().contains(p) <==> self.workspaces().contains(p) && p != self.buf.ptrs_dev,
            self.buf.given_back().no_duplicates(),
    {
        let b: MoeV41Buffers = self.buf;
        let all: Seq<DevicePtr> = self.workspaces();
        let given: Seq<DevicePtr> = b.given_back();
        let k: Seq<int> = seq![0, 1, 2, 8, 3, 4, 5, 6, 7, 9, 11, 12, 13, 14, 15, 16];
        assert forall|i: int| 0 <= i < given.len() implies #[trigger] given[i] == all[k[i]] by {}
        assert forall|i: int| 0 <= i < given.len() implies 0 <= #[trigger] k[i] < 17 && k[i] != 10 by {}
        assert forall|i: int, j: int| 0 <= i < given.len() && 0 <= j < given.len() && i != j implies given[i] != given[j] by {
            assert(k[i] != k[j]);
        }
        if given.contains(p) {
            let i: int = choose|i: int| 0 <= i < given.len() && given[i] == p;
            assert(all[k[i]] == p);
            assert(all[10] == b.ptrs_dev);
        }
        if all.contains(p) && p != b.ptrs_dev {
            let j: int = choose|j: int| 0 <= j < all.len() && all[j] == p;
            let back: Seq<int> = seq![0, 1, 2, 4, 5, 6, 7, 8, 3, 9, 0, 10, 11, 12, 13, 14, 15];
            assert(all[10] == b.ptrs_dev);
            assert(k[back[j]] == j);
            assert(given[back[j]] == p);
        }
    }
}

impl MoeV41 {
    /// The launches of a turn read the lists from the turn's own entries on: for
    /// row `k` the gather and the scatter read the token of the turn's `k`-th
    /// assignment, the activation reads that assignment's weight. So a row is
    /// added to the token that it was taken from.
    pub proof fn lemma_turn_launches_read_its_entries(
        &self,
        x: DevicePtr,
        m: int,
        indices: Seq<usize>,
        weights: Seq<u32>,
        slots: Seq<ExpertSlot>,
        i: int,
        k: int,
        j: int,
    )
        requires
            self.wf(),
            1 <= m <= self.cfg.max_tokens,
            routing_is_sound(indices, m, self.cfg.topk as int, self.cfg.n_routed as int),
            indices.len() <= usize::MAX,
            0 <= i < plan_of(indices, self.cfg.n_routed as int).len(),
            0 <= k < plan_of(indices, self.cfg.n_routed as int)[i].rows,
            ({
                let turn: PlanStep = plan_of(indices, self.cfg.n_routed as int)[i];
                0 <= j < self.turn_cmds(x, turn, slots[turn.first as int]).len()
            }),
        ensures
            ({
                let topk: int = self.cfg.topk as int;
                let order: Seq<usize> = group_major(indices, self.cfg.n_routed as int);
                let turn: PlanStep = plan_of(indices, self.cfg.n_routed as int)[i];
                let a: usize = members(indices, indices[turn.first as int] as int, indices.len() as int)[k];
                let tokens: Seq<u8> = token_row_bytes(order, topk);
                let factors: Seq<u8> = weight_bytes(order, weights);
                let c: CommandView = self.turn_cmds(x, turn, slots[turn.first as int])[j];
                &&& c matches CommandView::Launch { kernel, grid, args, .. } ==> {
                    &&& kernel == Kernel::MoeGatherRows ==> {
                        &&& grid.x == turn.rows as u32
                        &&& reads_entry(args[1], self.buf.rows_dev, tokens, k, ((a as int / topk) as i32) as u32)
                    }
                    &&& kernel == Kernel::MoeSwiglu ==> {
                        &&& args[4] == Arg::U32(turn.rows as u32)
                        &&& reads_entry(args[2], self.buf.weight_dev, factors, k, weights[a as int])
                    }
                    &&& kernel == Kernel::MoeScatterAdd ==> {
                        &&& grid.x == turn.rows as u32
                        &&& args[0] == Arg::Ptr(self.buf.acc)
                        &&& args[1] == Arg::Ptr(self.buf.down_out)
                        &&& reads_entry(args[2], self.buf.rows_dev, tokens, k, ((a as int / topk) as i32) as u32)
                    }
                }
            }),
    {
        let n_routed: int = self.cfg.n_routed as int;
        let topk: int = self.cfg.topk as int;
        let order: Seq<usize> = group_major(indices, n_routed);
        let turn: PlanStep = plan_of(indices, n_routed)[i];
        let cmds: Seq<CommandView> = self.turn_cmds(x, turn, slots[turn.first as int]);
        lemma_plan(indices, n_routed);
        lemma_turn_reads_its_assignments(indices, weights, topk, n_routed, i, k);
        lemma_mul_le(m, self.cfg.max_tokens as int, topk);
        assert(turn.offset + turn.rows <= indices.len());
        let at: int = turn.offset + k;
        let a: usize = members(indices, indices[turn.first as int] as int, indices.len() as int)[k];
        assert(row(token_row_bytes(order, topk), at, 4) =~= token_row_bytes(order, topk).subrange(4 * at, 4 * at + 4));
        assert(row(weight_bytes(order, weights), at, 4) =~= weight_bytes(order, weights).subrange(4 * at, 4 * at + 4));
    }
}

/// An argument points into an uploaded list, and the `k`-th word from there is
/// this one.
pub open spec fn reads_entry(arg: Arg, list: DevicePtr, data: Seq<u8>, k: int, word: u32) -> bool {
    &&& arg matches Arg::Ptr(p)
    &&& list.0 <= p.0
    &&& data.subrange(p.0 - list.0 + 4 * k, p.0 - list.0 + 4 * k + 4) == le32(word)
}

/// A single token's experts are in step: row `k` of what they make, the `k`-th
/// entries of the pointer tables, of the weights and of the token rows all
/// belong to the same assignment, and the token is the only one there is.
pub proof fn lemma_single_token_entries(
    indices: Seq<usize>,
    weights: Seq<u32>,
    slots: Seq<ExpertSlot>,
    topk: int,
    n_routed: int,
    k: int,
)
    requires
        0 < topk,
        0 <= n_routed,
        indices.len() <= usize::MAX,
        routing_is_sound(indices, 1, topk, n_routed),
        0 <= k < topk,
    ensures
        ({
            let plan: Seq<PlanStep> = plan_of(indices, n_routed);
            let order: Seq<usize> = group_major(indices, n_routed);
            let a: int = order[k] as int;
            let table: Seq<u8> = pointer_bytes(plan, slots, 0) + pointer_bytes(plan, slots, 1) + pointer_bytes(
                plan,
                slots,
                2,
            );
            &&& plan.len() == topk
            &&& 0 <= a < topk
            &&& table.subrange(8 * k, 8 * k + 8) == le64(slots[a].gate.0)
            &&& table.subrange(8 * (topk + k), 8 * (topk + k) + 8) == le64(slots[a].up.0)
            &&& table.subrange(8 * (2 * topk + k), 8 * (2 * topk + k) + 8) == le64(slots[a].down.0)
            &&& row(weight_bytes(order, weights), k, 4) == le32(weights[a])
            &&& row(token_row_bytes(order, topk), k, 4) == le32(0)
        }),
{
    let plan: Seq<PlanStep> = plan_of(indices, n_routed);
    let order: Seq<usize> = group_major(indices, n_routed);
    lemma_single_token_plan(indices, topk, n_routed);
    lemma_plan(indices, n_routed);
    lemma_group_major(indices, n_routed);
    let turn: PlanStep = plan[k];
    assert(turn.offset == k && turn.rows == 1);
    let stretch: Seq<usize> = order.subrange(turn.offset as int, turn.offset + turn.rows);
    assert(stretch[0] == order[k]);
    lemma_turn_reads_its_assignments(indices, weights, topk, n_routed, k, 0);
    lemma_pointer_table(plan, slots, 0, k);
    lemma_pointer_table(plan, slots, 1, k);
    lemma_pointer_table(plan, slots, 2, k);
    let a: int = order[k] as int;
    assert(1 * topk == topk);
    assert(a < topk);
    assert(a / topk == 0) by (nonlinear_arith)
        requires
            0 <= a < topk,
    ;
    assert(0 * plan.len() * 8 == 0);
}

} // verus!
