//! DeepSeek-V4.1 Flash mixture of experts, on streamed experts that stay
//! quantised.
//!
//! The routed experts never leave their Q2_K and Q3_K blocks. Per token the
//! router picks `topk` of them; each expert that a call goes to runs once, on
//! the rows of its tokens, and adds its output to theirs. The shared expert,
//! which every token goes through, is resident.
//!
//! [`MoeV41::route`] issues the router's logits, [`MoeV41::read_logits`] takes
//! them, [`crate::moe_route::route_from_logits`] selects, and
//! [`MoeV41::forward`] issues the experts once their weights are on the device.

use crate::bytes::{f32_from_bytes, le32, le64, push_double, push_word, words_of};
use crate::device::{
    at, at_least_16, div_up, div_up_of, free_each, freed, has_room, is_roomy, kernel_source_of, launch, launched, offset_by,
    padded_16, Arg, BlockFormat, Command, CommandQueue, CommandView, DevicePtr, Kernel, KernelModule,
};
use crate::moe_plan::{
    group_by_expert, group_major, lemma_group_major, lemma_members_are_distinct_tokens,
    lemma_plan, plan_of, routing_is_sound, PlanStep,
};
use crate::rows::{concat_rows, lemma_append_all, lemma_mul_le, product_fits};
use vstd::prelude::*;

verus! {

/// The geometry of the experts and the router. Floats are bit patterns.
#[derive(Clone, Copy, Debug)]
pub struct MoeV41Cfg {
    pub dim: usize,
    pub inter: usize,
    pub n_routed: usize,
    pub topk: usize,
    pub gate_temp: u32,
    pub norm_topk_prob: bool,
    pub route_scale: u32,
    pub swiglu_limit: u32,
    pub max_tokens: usize,
}

/// A resident matrix: in bf16, or in quantised blocks.
#[derive(Clone, Copy, Debug, PartialEq, Eq, Structural)]
pub enum ResidentMat {
    Bf16(DevicePtr),
    Q2K(DevicePtr),
    Q3K(DevicePtr),
}

/// One layer's resident weights: the router and the shared expert.
#[derive(Debug)]
pub struct MoeV41LayerWeights {
    pub layer: u32,
    /// bf16 `[n_routed, dim]`
    pub gate_w: DevicePtr,
    /// bit patterns of f32 `[n_routed]`, on the host
    pub gate_bias: Vec<u32>,
    /// `[inter, dim]`
    pub shared_w1: ResidentMat,
    /// `[dim, inter]`
    pub shared_w2: ResidentMat,
    /// `[inter, dim]`
    pub shared_w3: ResidentMat,
}

/// Why the experts refuse a configuration or a call.
#[derive(Clone, Copy, Debug, PartialEq, Eq, Structural)]
pub enum MoeError {
    /// a width is no multiple of the quantised block
    Blocks { dim: usize, inter: usize },
    /// more tokens than the workspaces hold, or none
    Tokens { m: usize, max_tokens: usize },
    /// the correction bias is for another number of experts
    GateBias { held: usize, n_routed: usize },
}

/// How often a call found its experts in the cache.
#[derive(Clone, Copy, Debug, PartialEq, Eq, Structural)]
pub struct MoeV41Timing {
    pub hits: u64,
    pub misses: u64,
    pub bytes_read: u64,
}

impl Default for MoeV41Timing {
    fn default() -> (r: Self)
        ensures
            r == (MoeV41Timing { hits: 0, misses: 0, bytes_read: 0 }),
    {
        MoeV41Timing { hits: 0, misses: 0, bytes_read: 0 }
    }
}

impl MoeV41Timing {
    /// Adds the counts of another call.
    pub fn add(&mut self, o: &MoeV41Timing)
        requires
            old(self).hits + o.hits <= u64::MAX,
            old(self).misses + o.misses <= u64::MAX,
            old(self).bytes_read + o.bytes_read <= u64::MAX,
        ensures
            final(self).hits == old(self).hits + o.hits,
            final(self).misses == old(self).misses + o.misses,
            final(self).bytes_read == old(self).bytes_read + o.bytes_read,
    {
        self.hits = self.hits + o.hits;
        self.misses = self.misses + o.misses;
        self.bytes_read = self.bytes_read + o.bytes_read;
    }

    /// The counts between two readings of a cache's statistics.
    pub fn between(before: &MoeV41Timing, after: &MoeV41Timing) -> (r: Self)
        requires
            before.hits <= after.hits,
            before.misses <= after.misses,
            before.bytes_read <= after.bytes_read,
        ensures
            before.hits + r.hits == after.hits,
            before.misses + r.misses == after.misses,
            before.bytes_read + r.bytes_read == after.bytes_read,
    {
        MoeV41Timing {
            hits: after.hits - before.hits,
            misses: after.misses - before.misses,
            bytes_read: after.bytes_read - before.bytes_read,
        }
    }
}

/// The three matrices of one routed expert, on the device.
#[derive(Clone, Copy, Debug, PartialEq, Eq, Structural)]
pub struct ExpertSlot {
    /// Q2_K `[inter, dim]`
    pub gate: DevicePtr,
    /// Q2_K `[inter, dim]`
    pub up: DevicePtr,
    /// Q3_K `[dim, inter]`
    pub down: DevicePtr,
}

/// The sizes in bytes of quantised activations, as the kernels lay them out.
#[derive(Clone, Copy, Debug, PartialEq, Eq, Structural)]
pub struct ActivationBytes {
    /// `max_tokens` rows of `dim` values, tiled
    pub tiled_dim: usize,
    /// `max_tokens` rows of `dim` values, one after the other
    pub rows_dim: usize,
    /// `max_tokens` rows of `inter` values, tiled
    pub tiled_inter: usize,
    /// `max_tokens` rows of `inter` values, one after the other
    pub rows_inter: usize,
    /// one row of `inter` values
    pub row_inter: usize,
}

/// The sizes in bytes of the workspaces.
#[derive(Clone, Copy, Debug, PartialEq, Eq, Structural)]
pub struct MoeV41Layout {
    pub logits: usize,
    pub a_rows: usize,
    pub a_q8: usize,
    pub gate_out: usize,
    pub up_out: usize,
    pub h: usize,
    pub h_q8: usize,
    pub down_out: usize,
    pub rows_dev: usize,
    pub weight_dev: usize,
    pub ptrs_dev: usize,
    pub sg: usize,
    pub su: usize,
    pub sh: usize,
    pub sd: usize,
    pub acc: usize,
    pub out: usize,
}

/// The workspaces on the device.
#[derive(Clone, Copy, Debug, PartialEq, Eq, Structural)]
pub struct MoeV41Buffers {
    pub logits: DevicePtr,
    /// gathered rows of one expert group, bf16
    pub a_rows: DevicePtr,
    /// the group's quantised activations
    pub a_q8: DevicePtr,
    pub gate_out: DevicePtr,
    pub up_out: DevicePtr,
    pub h: DevicePtr,
    pub h_q8: DevicePtr,
    pub down_out: DevicePtr,
    /// `[m * topk]` token rows, group-major
    pub rows_dev: DevicePtr,
    /// `[m * topk]` routing weights, group-major
    pub weight_dev: DevicePtr,
    /// gate, up and down pointers of a token's experts
    pub ptrs_dev: DevicePtr,
    pub sg: DevicePtr,
    pub su: DevicePtr,
    pub sh: DevicePtr,
    pub sd: DevicePtr,
    pub acc: DevicePtr,
    pub out: DevicePtr,
}

impl MoeV41Buffers {
    /// The workspaces that are read or written at an offset have the room that
    /// the layout asks for.
    pub open spec fn roomy(&self, l: MoeV41Layout) -> bool {
        &&& has_room(self.rows_dev, l.rows_dev as int)
        &&& has_room(self.weight_dev, l.weight_dev as int)
        &&& has_room(self.ptrs_dev, l.ptrs_dev as int)
    }

    /// Whether those workspaces have the room that the layout asks for.
    pub fn have_room(&self, l: &MoeV41Layout) -> (r: bool)
        ensures
            r == self.roomy(*l),
    {
        is_roomy(self.rows_dev, l.rows_dev) && is_roomy(self.weight_dev, l.weight_dev) && is_roomy(
            self.ptrs_dev,
            l.ptrs_dev,
        )
    }

    /// The buffers that are given back, in order: all but the pointer table.
    pub open spec fn given_back(&self) -> Seq<DevicePtr> {
        seq![
            self.logits,
            self.a_rows,
            self.a_q8,
            self.rows_dev,
            self.gate_out,
            self.up_out,
            self.h,
            self.h_q8,
            self.down_out,
            self.weight_dev,
            self.sg,
            self.su,
            self.sh,
            self.sd,
            self.acc,
            self.out,
        ]
    }
}

/// The larger of two.
pub open spec fn larger_of(a: int, b: int) -> int {
    if a < b {
        b
    } else {
        a
    }
}

impl MoeV41Cfg {
    /// The experts' blocks divide both widths.
    pub open spec fn supported(&self) -> bool {
        self.dim % 256 == 0 && self.inter % 256 == 0
    }

    /// The products of the geometry are machine integers.
    pub open spec fn fits(&self) -> bool {
        let m: int = self.max_tokens as int;
        &&& m * self.n_routed * 4 <= usize::MAX
        &&& m * self.dim * 4 <= usize::MAX
        &&& m * self.inter * 2 <= usize::MAX
        &&& m * self.topk * 4 <= usize::MAX
        &&& 3 * self.topk * 8 <= usize::MAX
        &&& self.topk * self.inter <= usize::MAX
    }

    /// Whether the products of the geometry are machine integers.
    pub fn is_representable(&self) -> (r: bool)
        ensures
            r == self.fits(),
    {
        let m: usize = self.max_tokens;
        product_fits(m, self.n_routed, 4, 1) && product_fits(m, self.dim, 4, 1) && product_fits(m, self.inter, 2, 1)
            && product_fits(m, self.topk, 4, 1) && product_fits(3, self.topk, 8, 1) && product_fits(
            self.topk,
            self.inter,
            1,
            1,
        )
    }

    /// The sizes of the workspaces for up to `max_tokens` tokens per call.
    pub open spec fn layout_of(&self, act: ActivationBytes) -> MoeV41Layout {
        let m: int = self.max_tokens as int;
        MoeV41Layout {
            logits: at_least_16(m * self.n_routed * 4) as usize,
            a_rows: at_least_16(m * self.dim * 2) as usize,
            a_q8: at_least_16(larger_of(act.tiled_dim as int, act.rows_dim as int)) as usize,
            gate_out: at_least_16(m * self.inter * 2) as usize,
            up_out: at_least_16(m * self.inter * 2) as usize,
            h: at_least_16(m * self.inter * 2) as usize,
            h_q8: at_least_16(larger_of(act.tiled_inter as int, act.rows_inter as int)) as usize,
            down_out: at_least_16(m * self.dim * 2) as usize,
            rows_dev: at_least_16(m * self.topk * 4) as usize,
            weight_dev: at_least_16(m * self.topk * 4) as usize,
            ptrs_dev: at_least_16(3 * self.topk * 8) as usize,
            sg: at_least_16(m * self.inter * 2) as usize,
            su: at_least_16(m * self.inter * 2) as usize,
            sh: at_least_16(m * self.inter * 2) as usize,
            sd: at_least_16(m * self.dim * 2) as usize,
            acc: at_least_16(m * self.dim * 4) as usize,
            out: at_least_16(m * self.dim * 2) as usize,
        }
    }

    /// The sizes of the workspaces for up to `max_tokens` tokens per call.
    pub fn layout(&self, act: ActivationBytes) -> (r: MoeV41Layout)
        requires
            self.fits(),
        ensures
            r == self.layout_of(act),
    {
        let m: usize = self.max_tokens;
        let a_q8: usize = if act.tiled_dim < act.rows_dim { act.rows_dim } else { act.tiled_dim };
        let h_q8: usize = if act.tiled_inter < act.rows_inter { act.rows_inter } else { act.tiled_inter };
        MoeV41Layout {
            logits: padded_16(m * self.n_routed * 4),
            a_rows: padded_16(m * self.dim * 2),
            a_q8: padded_16(a_q8),
            gate_out: padded_16(m * self.inter * 2),
            up_out: padded_16(m * self.inter * 2),
            h: padded_16(m * self.inter * 2),
            h_q8: padded_16(h_q8),
            down_out: padded_16(m * self.dim * 2),
            rows_dev: padded_16(m * self.topk * 4),
            weight_dev: padded_16(m * self.topk * 4),
            ptrs_dev: padded_16(3 * self.topk * 8),
            sg: padded_16(m * self.inter * 2),
            su: padded_16(m * self.inter * 2),
            sh: padded_16(m * self.inter * 2),
            sd: padded_16(m * self.dim * 2),
            acc: padded_16(m * self.dim * 4),
            out: padded_16(m * self.dim * 2),
        }
    }
}

/// The expert runtime: workspaces for up to `max_tokens` tokens per call.
#[derive(Clone, Copy, Debug)]
pub struct MoeV41 {
    pub cfg: MoeV41Cfg,
    pub buf: MoeV41Buffers,
    /// the bytes of one quantised activation row of `inter` values
    pub row_inter: usize,
    /// wait for the device at the end of a call, so that its time can be told
    pub timing_sync: bool,
}

/// The cache keys of a call's experts.
pub fn expert_keys(layer: u32, indices: &[usize]) -> (r: Vec<(u32, u32)>)
    ensures
        r@ == indices@.map_values(|e: usize| (layer, e as u32)),
{
    let n: usize = indices.len();
    let mut out: Vec<(u32, u32)> = Vec::with_capacity(n);
    let ghost want: Seq<(u32, u32)> = indices@.map_values(|e: usize| (layer, e as u32));
    for i in 0..n
        invariant
            n == indices@.len(),
            want == indices@.map_values(|e: usize| (layer, e as u32)),
            out@ == want.take(i as int),
    {
        out.push((layer, indices[i] as u32));
        assert(out@ =~= want.take(i + 1));
    }
    assert(out@ =~= want);
    out
}

/// The token rows of assignments.
pub open spec fn token_row_bytes(order: Seq<usize>, topk: int) -> Seq<u8> {
    concat_rows(order.len(), |i: int| le32(((order[i] as int / topk) as i32) as u32))
}

/// The routing weights of assignments.
pub open spec fn weight_bytes(order: Seq<usize>, weights: Seq<u32>) -> Seq<u8> {
    concat_rows(order.len(), |i: int| le32(weights[order[i] as int]))
}

/// The address of one of an expert's matrices: gate, up, down.
pub open spec fn slot_pointer(slot: ExpertSlot, which: int) -> u64 {
    if which == 0 {
        slot.gate.0
    } else if which == 1 {
        slot.up.0
    } else {
        slot.down.0
    }
}

/// The pointers of one matrix of each of the planned experts.
pub open spec fn pointer_bytes(plan: Seq<PlanStep>, slots: Seq<ExpertSlot>, which: int) -> Seq<u8> {
    concat_rows(plan.len(), |i: int| le64(slot_pointer(slots[plan[i].first as int], which)))
}

impl MoeV41 {
    /// The kernels that the layers launch.
    pub fn kernels() -> (r: Vec<Kernel>)
        ensures
            r@ == seq![
                Kernel::DenseGemmBf16,
                Kernel::DenseGemvBf16,
                Kernel::DenseGemmBf16F32out,
                Kernel::MoeRouterGemv,
                Kernel::Q8Rows,
                Kernel::MmvqQ2k,
                Kernel::MmvqQ3k,
                Kernel::MmvqQ2kExperts,
                Kernel::MmvqQ3kExperts,
                Kernel::MoeSwiglu,
                Kernel::MoeAccumulate,
                Kernel::MoeFinish,
                Kernel::MoeGatherRows,
                Kernel::MoeScatterAdd,
                Kernel::QuantD2s6,
                Kernel::QuantD4,
                Kernel::MmqQ2kNc,
                Kernel::MmqQ2kWc,
                Kernel::MmqQ3kNc,
                Kernel::MmqQ3kWc,
            ],
            forall|k: Kernel| r@.contains(k) <==> kernel_source_of(k).0 != KernelModule::Attn,
    {
        let r: Vec<Kernel> = vec![
            Kernel::DenseGemmBf16,
            Kernel::DenseGemvBf16,
            Kernel::DenseGemmBf16F32out,
            Kernel::MoeRouterGemv,
            Kernel::Q8Rows,
            Kernel::MmvqQ2k,
            Kernel::MmvqQ3k,
            Kernel::MmvqQ2kExperts,
            Kernel::MmvqQ3kExperts,
            Kernel::MoeSwiglu,
            Kernel::MoeAccumulate,
            Kernel::MoeFinish,
            Kernel::MoeGatherRows,
            Kernel::MoeScatterAdd,
            Kernel::QuantD2s6,
            Kernel::QuantD4,
            Kernel::MmqQ2kNc,
            Kernel::MmqQ2kWc,
            Kernel::MmqQ3kNc,
            Kernel::MmqQ3kWc,
        ];
        proof {
            assert forall|k: Kernel| r@.contains(k) <==> kernel_source_of(k).0 != KernelModule::Attn by {
                assert(r@[0] == Kernel::DenseGemmBf16);
                assert(r@[1] == Kernel::DenseGemvBf16);
                assert(r@[2] == Kernel::DenseGemmBf16F32out);
                assert(r@[3] == Kernel::MoeRouterGemv);
                assert(r@[4] == Kernel::Q8Rows);
                assert(r@[5] == Kernel::MmvqQ2k);
                assert(r@[6] == Kernel::MmvqQ3k);
                assert(r@[7] == Kernel::MmvqQ2kExperts);
                assert(r@[8] == Kernel::MmvqQ3kExperts);
                assert(r@[9] == Kernel::MoeSwiglu);
                assert(r@[10] == Kernel::MoeAccumulate);
                assert(r@[11] == Kernel::MoeFinish);
                assert(r@[12] == Kernel::MoeGatherRows);
                assert(r@[13] == Kernel::MoeScatterAdd);
                assert(r@[14] == Kernel::QuantD2s6);
                assert(r@[15] == Kernel::QuantD4);
                assert(r@[16] == Kernel::MmqQ2kNc);
                assert(r@[17] == Kernel::MmqQ2kWc);
                assert(r@[18] == Kernel::MmqQ3kNc);
                assert(r@[19] == Kernel::MmqQ3kWc);
            }
        }
        r
    }

    /// Whether the kernels can run a geometry, and the workspaces that it
    /// needs.
    pub fn plan(cfg: &MoeV41Cfg, act: ActivationBytes) -> (r: Result<MoeV41Layout, MoeError>)
        requires
            cfg.supported() ==> cfg.fits(),
        ensures
            r == if cfg.supported() {
                Ok::<MoeV41Layout, MoeError>(cfg.layout_of(act))
            } else {
                Err::<MoeV41Layout, MoeError>(MoeError::Blocks { dim: cfg.dim, inter: cfg.inter })
            },
    {
        if cfg.dim % 256 == 0 && cfg.inter % 256 == 0 {
            Ok(cfg.layout(act))
        } else {
            Err(MoeError::Blocks { dim: cfg.dim, inter: cfg.inter })
        }
    }

    /// The runtime is usable: its products are machine integers, and its
    /// workspaces have the room of the layout.
    pub open spec fn wf(&self) -> bool {
        &&& self.cfg.fits()
        &&& has_room(self.buf.rows_dev, self.cfg.max_tokens * self.cfg.topk * 4)
        &&& has_room(self.buf.weight_dev, self.cfg.max_tokens * self.cfg.topk * 4)
        &&& has_room(self.buf.ptrs_dev, 3 * self.cfg.topk * 8)
    }

    /// Puts the runtime together from workspaces of the sizes of
    /// [`MoeV41::plan`].
    pub fn new(cfg: MoeV41Cfg, buf: MoeV41Buffers, act: ActivationBytes, timing_sync: bool) -> (r: Self)
        requires
            cfg.supported(),
            cfg.fits(),
            buf.roomy(cfg.layout_of(act)),
        ensures
            r.wf(),
            r == (MoeV41 { cfg, buf, row_inter: act.row_inter, timing_sync }),
    {
        MoeV41 { cfg, buf, row_inter: act.row_inter, timing_sync }
    }

    /// A launch with one thread per value.
    pub open spec fn per_value_cmds(kernel: Kernel, n: int, args: Seq<Arg>) -> Seq<CommandView> {
        if n == 0 {
            seq![]
        } else {
            seq![launched(kernel, div_up_of(n as u32, 256), 1, 256, 1, args)]
        }
    }

    fn launch_n(&self, q: &mut CommandQueue, kernel: Kernel, n: usize, args: Vec<Arg>)
        ensures
            final(q)@ == old(q)@ + Self::per_value_cmds(kernel, n as int, args@),
    {
        if n == 0 {
            assert(q@ =~= old(q)@ + Self::per_value_cmds(kernel, n as int, args@));
            return;
        }
        launch(q, kernel, div_up(n as u32, 256), 1, 256, 1, args);
        assert(q@ =~= old(q)@ + Self::per_value_cmds(kernel, n as int, args@));
    }

    /// The router's logits: at up to 8 tokens one thread per logit, above that
    /// tiles.
    pub open spec fn route_cmds(&self, w: &MoeV41LayerWeights, x: DevicePtr, m: int) -> Seq<CommandView> {
        let c: MoeV41Cfg = self.cfg;
        let args: Seq<Arg> = seq![
            Arg::Ptr(x),
            Arg::Ptr(w.gate_w),
            Arg::Ptr(self.buf.logits),
            Arg::U32(m as u32),
            Arg::U32(c.n_routed as u32),
            Arg::U32(c.dim as u32),
        ];
        seq![
            if m <= 8 {
                launched(Kernel::MoeRouterGemv, div_up_of(c.n_routed as u32, 64), m as u32, 64, 1, args)
            } else {
                launched(
                    Kernel::DenseGemmBf16F32out,
                    div_up_of(c.n_routed as u32, 16),
                    div_up_of(m as u32, 16),
                    16,
                    16,
                    args,
                )
            },
            CommandView::Synchronize,
        ]
    }

    /// Issues the router's logits of `m` tokens. Returns how many bytes of
    /// logits are to be read back.
    pub fn route(&self, q: &mut CommandQueue, w: &MoeV41LayerWeights, x: DevicePtr, m: usize) -> (r: Result<
        usize,
        MoeError,
    >)
        requires
            self.cfg.fits(),
        ensures
            1 <= m <= self.cfg.max_tokens ==> {
                &&& r == Ok::<usize, MoeError>((m * self.cfg.n_routed * 4) as usize)
                &&& r->Ok_0 == m * self.cfg.n_routed * 4
                &&& final(q)@ == old(q)@ + self.route_cmds(w, x, m as int)
            },
            !(1 <= m <= self.cfg.max_tokens) ==> {
                &&& r == Err::<usize, MoeError>(MoeError::Tokens { m, max_tokens: self.cfg.max_tokens })
                &&& final(q)@ == old(q)@
            },
    {
        let c: &MoeV41Cfg = &self.cfg;
        if m < 1 || m > c.max_tokens {
            return Err(MoeError::Tokens { m, max_tokens: c.max_tokens });
        }
        let args: Vec<Arg> = vec![
            Arg::Ptr(x),
            Arg::Ptr(w.gate_w),
            Arg::Ptr(self.buf.logits),
            Arg::U32(m as u32),
            Arg::U32(c.n_routed as u32),
            Arg::U32(c.dim as u32),
        ];
        if m <= 8 {
            launch(q, Kernel::MoeRouterGemv, div_up(c.n_routed as u32, 64), m as u32, 64, 1, args);
        } else {
            launch(
                q,
                Kernel::DenseGemmBf16F32out,
                div_up(c.n_routed as u32, 16),
                div_up(m as u32, 16),
                16,
                16,
                args,
            );
        }
        q.push(Command::Synchronize);
        assert(q@ =~= old(q)@ + self.route_cmds(w, x, m as int));
        proof {
            lemma_mul_le(m as int, c.max_tokens as int, c.n_routed as int);
            lemma_mul_le(0, m as int, c.n_routed as int);
        }
        Ok(m * c.n_routed * 4)
    }

    /// The router's logits, from what the device left of them; refused where
    /// the layer's correction bias is for another number of experts.
    pub fn read_logits(&self, w: &MoeV41LayerWeights, bytes: &[u8]) -> (r: Result<Vec<u32>, MoeError>)
        ensures
            w.gate_bias@.len() == self.cfg.n_routed ==> r is Ok && (r->Ok_0)@ == words_of(bytes@),
            w.gate_bias@.len() != self.cfg.n_routed ==> r == Err::<Vec<u32>, MoeError>(
                MoeError::GateBias { held: w.gate_bias@.len() as usize, n_routed: self.cfg.n_routed },
            ),
    {
        let held: usize = w.gate_bias.len();
        if held != self.cfg.n_routed {
            return Err(MoeError::GateBias { held, n_routed: self.cfg.n_routed });
        }
        Ok(f32_from_bytes(bytes))
    }

    /// The output of a call, bf16 `[m, dim]`.
    pub fn out_ptr(&self) -> (r: DevicePtr)
        ensures
            r == self.buf.out,
    {
        self.buf.out
    }

    /// Gives the workspaces back, each once, but for the pointer table.
    pub fn free(self, q: &mut CommandQueue)
        ensures
            final(q)@ == old(q)@ + freed(self.buf.given_back()),
    {
        let b: MoeV41Buffers = self.buf;
        let given: Vec<DevicePtr> = vec![
            b.logits,
            b.a_rows,
            b.a_q8,
            b.rows_dev,
            b.gate_out,
            b.up_out,
            b.h,
            b.h_q8,
            b.down_out,
            b.weight_dev,
            b.sg,
            b.su,
            b.sh,
            b.sd,
            b.acc,
            b.out,
        ];
        assert(given@ =~= b.given_back());
        free_each(q, &given);
    }
}

fn push_pointers(out: &mut Vec<u8>, plan: &Vec<PlanStep>, slots: &[ExpertSlot], which: usize)
    requires
        forall|i: int| 0 <= i < plan@.len() ==> (#[trigger] plan@[i]).first < slots@.len(),
    ensures
        final(out)@ == old(out)@ + pointer_bytes(plan@, slots@, which as int),
{
    let n: usize = plan.len();
    let ghost f = |i: int| le64(slot_pointer(slots@[plan@[i].first as int], which as int));
    assert(out@ =~= old(out)@ + concat_rows(0, f));
    for i in 0..n
        invariant
            n == plan@.len(),
            forall|i: int| 0 <= i < plan@.len() ==> (#[trigger] plan@[i]).first < slots@.len(),
            f == |i: int| le64(slot_pointer(slots@[plan@[i].first as int], which as int)),
            out@ == old(out)@ + concat_rows(i as nat, f),
    {
        let slot: ExpertSlot = slots[plan[i].first];
        push_double(
            out,
            if which == 0 {
                slot.gate.0
            } else if which == 1 {
                slot.up.0
            } else {
                slot.down.0
            },
        );
        assert(out@ =~= old(out)@ + concat_rows((i + 1) as nat, f));
    }
}

/// The pointers of all three matrices: all gates, all ups, all downs.
fn pointer_table(plan: &Vec<PlanStep>, slots: &[ExpertSlot]) -> (r: Vec<u8>)
    requires
        forall|i: int| 0 <= i < plan@.len() ==> (#[trigger] plan@[i]).first < slots@.len(),
    ensures
        r@ == pointer_bytes(plan@, slots@, 0) + pointer_bytes(plan@, slots@, 1) + pointer_bytes(plan@, slots@, 2),
{
    let mut out: Vec<u8> = Vec::new();
    push_pointers(&mut out, plan, slots, 0);
    push_pointers(&mut out, plan, slots, 1);
    push_pointers(&mut out, plan, slots, 2);
    assert(out@ =~= pointer_bytes(plan@, slots@, 0) + pointer_bytes(plan@, slots@, 1) + pointer_bytes(
        plan@,
        slots@,
        2,
    ));
    out
}

fn assignment_bytes(order: &Vec<usize>, weights: &[u32], topk: usize) -> (r: (Vec<u8>, Vec<u8>))
    requires
        topk > 0 || order@.len() == 0,
        forall|i: int| 0 <= i < order@.len() ==> (#[trigger] order@[i]) < weights@.len(),
    ensures
        r.0@ == token_row_bytes(order@, topk as int),
        r.1@ == weight_bytes(order@, weights@),
{
    let n: usize = order.len();
    let mut rows: Vec<u8> = Vec::new();
    let mut ws: Vec<u8> = Vec::new();
    let ghost f = |i: int| le32(((order@[i] as int / topk as int) as i32) as u32);
    let ghost g = |i: int| le32(weights@[order@[i] as int]);
    for i in 0..n
        invariant
            n == order@.len(),
            topk > 0 || n == 0,
            forall|i: int| 0 <= i < order@.len() ==> (#[trigger] order@[i]) < weights@.len(),
            f == |i: int| le32(((order@[i] as int / topk as int) as i32) as u32),
            g == |i: int| le32(weights@[order@[i] as int]),
            rows@ == concat_rows(i as nat, f),
            ws@ == concat_rows(i as nat, g),
    {
        push_word(&mut rows, ((order[i] / topk) as i32) as u32);
        push_word(&mut ws, weights[order[i]]);
    }
    (rows, ws)
}

impl MoeV41 {
    /// One token: it is every expert's activation, so it is quantised once and
    /// each projection is one launch over the experts, by a table of their
    /// pointers. The routing weight goes in at the activation function, and the
    /// experts' rows are added up in the order of the plan.
    pub open spec fn single_token_cmds(&self, x: DevicePtr, plan: Seq<PlanStep>, slots: Seq<ExpertSlot>) -> Seq<
        CommandView,
    > {
        let c: MoeV41Cfg = self.cfg;
        let b: MoeV41Buffers = self.buf;
        let ne: int = plan.len() as int;
        seq![
            CommandView::UploadAsync {
                data: pointer_bytes(plan, slots, 0) + pointer_bytes(plan, slots, 1) + pointer_bytes(plan, slots, 2),
                dst: b.ptrs_dev,
            },
            CommandView::Q8Rows { a: x, out: b.a_q8, rows: 1, k: c.dim as u32 },
            CommandView::MmvqExperts {
                format: BlockFormat::Q2K,
                table: b.ptrs_dev,
                a: b.a_q8,
                out: b.gate_out,
                n: c.inter as u32,
                k: c.dim as u32,
                rows: 1,
                experts: ne as u32,
                a_stride: 0,
            },
            CommandView::MmvqExperts {
                format: BlockFormat::Q2K,
                table: offset_by(b.ptrs_dev, ne * 8),
                a: b.a_q8,
                out: b.up_out,
                n: c.inter as u32,
                k: c.dim as u32,
                rows: 1,
                experts: ne as u32,
                a_stride: 0,
            },
        ] + Self::per_value_cmds(
            Kernel::MoeSwiglu,
            ne * c.inter,
            seq![
                Arg::Ptr(b.gate_out),
                Arg::Ptr(b.up_out),
                Arg::Ptr(b.weight_dev),
                Arg::Ptr(b.h),
                Arg::U32(ne as u32),
                Arg::U32(c.inter as u32),
                Arg::F32(c.swiglu_limit),
            ],
        ) + seq![
            CommandView::Q8Rows { a: b.h, out: b.h_q8, rows: ne as u32, k: c.inter as u32 },
            CommandView::MmvqExperts {
                format: BlockFormat::Q3K,
                table: offset_by(b.ptrs_dev, 2 * ne * 8),
                a: b.h_q8,
                out: b.down_out,
                n: c.dim as u32,
                k: c.inter as u32,
                rows: 1,
                experts: ne as u32,
                a_stride: self.row_inter as u32,
            },
            launched(
                Kernel::MoeScatterAdd,
                ne as u32,
                1,
                256,
                1,
                seq![Arg::Ptr(b.acc), Arg::Ptr(b.down_out), Arg::Ptr(b.rows_dev), Arg::U32(c.dim as u32)],
            ),
        ]
    }

    /// Quantised products of the rows `a`: at up to 8 rows row by row, above
    /// that on tiles.
    pub open spec fn block_product_cmds(
        format: BlockFormat,
        a: DevicePtr,
        a_q8: DevicePtr,
        products: Seq<(DevicePtr, DevicePtr)>,
        rows: int,
        n: int,
        k: int,
    ) -> Seq<CommandView> {
        if rows <= 8 {
            seq![CommandView::Q8Rows { a, out: a_q8, rows: rows as u32, k: k as u32 }] + products.map_values(
                |p: (DevicePtr, DevicePtr)|
                    CommandView::Mmvq {
                        format,
                        w: p.0,
                        a: a_q8,
                        out: p.1,
                        n: n as u32,
                        k: k as u32,
                        rows: rows as u32,
                    },
            )
        } else {
            seq![CommandView::QuantizeAct { format, a, out: a_q8, rows: rows as u32, k: k as u32 }]
                + products.map_values(
                |p: (DevicePtr, DevicePtr)|
                    CommandView::MmqGemm {
                        format,
                        a: a_q8,
                        w: p.0,
                        out: p.1,
                        rows: rows as u32,
                        n: n as u32,
                        k: k as u32,
                    },
            )
        }
    }

    /// One expert's turn: gather its tokens' rows, gate and up, the activation
    /// function with the routing weights, down, and add to the tokens' rows.
    pub open spec fn turn_cmds(&self, x: DevicePtr, step: PlanStep, slot: ExpertSlot) -> Seq<CommandView> {
        let c: MoeV41Cfg = self.cfg;
        let b: MoeV41Buffers = self.buf;
        let r: int = step.rows as int;
        let rows_ptr: DevicePtr = offset_by(b.rows_dev, step.offset * 4);
        seq![
            launched(
                Kernel::MoeGatherRows,
                r as u32,
                1,
                256,
                1,
                seq![Arg::Ptr(x), Arg::Ptr(rows_ptr), Arg::Ptr(b.a_rows), Arg::U32(c.dim as u32)],
            ),
        ] + Self::block_product_cmds(
            BlockFormat::Q2K,
            b.a_rows,
            b.a_q8,
            seq![(slot.gate, b.gate_out), (slot.up, b.up_out)],
            r,
            c.inter as int,
            c.dim as int,
        ) + Self::per_value_cmds(
            Kernel::MoeSwiglu,
            r * c.inter,
            seq![
                Arg::Ptr(b.gate_out),
                Arg::Ptr(b.up_out),
                Arg::Ptr(offset_by(b.weight_dev, step.offset * 4)),
                Arg::Ptr(b.h),
                Arg::U32(r as u32),
                Arg::U32(c.inter as u32),
                Arg::F32(c.swiglu_limit),
            ],
        ) + Self::block_product_cmds(
            BlockFormat::Q3K,
            b.h,
            b.h_q8,
            seq![(slot.down, b.down_out)],
            r,
            c.dim as int,
            c.inter as int,
        ) + seq![
            launched(
                Kernel::MoeScatterAdd,
                r as u32,
                1,
                256,
                1,
                seq![Arg::Ptr(b.acc), Arg::Ptr(b.down_out), Arg::Ptr(rows_ptr), Arg::U32(c.dim as u32)],
            ),
        ]
    }

    /// One product of the shared expert, on all `m` rows.
    pub open spec fn resident_cmds(
        a: DevicePtr,
        a_q8: DevicePtr,
        w: ResidentMat,
        out: DevicePtr,
        m: int,
        n: int,
        k: int,
    ) -> Seq<CommandView> {
        match w {
            ResidentMat::Bf16(p) => if m == 1 {
                seq![CommandView::DenseGemv { a, w: p, out, n: n as u32, k: k as u32 }]
            } else {
                seq![CommandView::DenseGemm { a, w: p, c: out, m: m as u32, n: n as u32, k: k as u32 }]
            },
            ResidentMat::Q2K(p) => Self::block_product_cmds(BlockFormat::Q2K, a, a_q8, seq![(p, out)], m, n, k),
            ResidentMat::Q3K(p) => Self::block_product_cmds(BlockFormat::Q3K, a, a_q8, seq![(p, out)], m, n, k),
        }
    }

    /// The shared expert, and its output added to the routed experts'.
    pub open spec fn shared_cmds(&self, w: &MoeV41LayerWeights, x: DevicePtr, m: int) -> Seq<CommandView> {
        let c: MoeV41Cfg = self.cfg;
        let b: MoeV41Buffers = self.buf;
        let dim: int = c.dim as int;
        let inter: int = c.inter as int;
        Self::resident_cmds(x, b.a_q8, w.shared_w1, b.sg, m, inter, dim) + Self::resident_cmds(
            x,
            b.a_q8,
            w.shared_w3,
            b.su,
            m,
            inter,
            dim,
        ) + Self::per_value_cmds(
            Kernel::MoeSwiglu,
            m * inter,
            seq![
                Arg::Ptr(b.sg),
                Arg::Ptr(b.su),
                Arg::Ptr(DevicePtr(0)),
                Arg::Ptr(b.sh),
                Arg::U32(m as u32),
                Arg::U32(c.inter as u32),
                Arg::F32(c.swiglu_limit),
            ],
        ) + Self::resident_cmds(b.sh, b.h_q8, w.shared_w2, b.sd, m, dim, inter) + Self::per_value_cmds(
            Kernel::MoeAccumulate,
            m * dim,
            seq![Arg::Ptr(b.acc), Arg::Ptr(b.sd), Arg::U32((m * dim) as u32)],
        ) + Self::per_value_cmds(
            Kernel::MoeFinish,
            m * dim,
            seq![Arg::Ptr(b.acc), Arg::Ptr(b.out), Arg::U32((m * dim) as u32)],
        )
    }

    /// The routed experts.
    pub open spec fn routed_cmds(&self, x: DevicePtr, m: int, plan: Seq<PlanStep>, slots: Seq<ExpertSlot>) -> Seq<
        CommandView,
    > {
        if m == 1 {
            self.single_token_cmds(x, plan, slots)
        } else {
            concat_rows(plan.len(), |i: int| self.turn_cmds(x, plan[i], slots[plan[i].first as int]))
        }
    }

    /// What a call issues.
    pub open spec fn forward_cmds(
        &self,
        w: &MoeV41LayerWeights,
        x: DevicePtr,
        m: int,
        weights: Seq<u32>,
        indices: Seq<usize>,
        slots: Seq<ExpertSlot>,
    ) -> Seq<CommandView> {
        let order: Seq<usize> = group_major(indices, self.cfg.n_routed as int);
        let plan: Seq<PlanStep> = plan_of(indices, self.cfg.n_routed as int);
        seq![
            CommandView::UploadAsync {
                data: token_row_bytes(order, self.cfg.topk as int),
                dst: self.buf.rows_dev,
            },
            CommandView::UploadAsync { data: weight_bytes(order, weights), dst: self.buf.weight_dev },
            CommandView::MemsetAsync { dst: self.buf.acc, value: 0, bytes: m * self.cfg.dim * 4 },
        ] + self.routed_cmds(x, m, plan, slots) + self.shared_cmds(w, x, m) + if self.timing_sync {
            seq![CommandView::Synchronize]
        } else {
            seq![]
        }
    }

    fn run_single_token(&self, q: &mut CommandQueue, x: DevicePtr, plan: &Vec<PlanStep>, slots: &[ExpertSlot])
        requires
            self.wf(),
            plan@.len() <= self.cfg.topk,
            forall|i: int| 0 <= i < plan@.len() ==> (#[trigger] plan@[i]).first < slots@.len(),
        ensures
            final(q)@ == old(q)@ + self.single_token_cmds(x, plan@, slots@),
    {
        let c: &MoeV41Cfg = &self.cfg;
        let b: &MoeV41Buffers = &self.buf;
        let ne: usize = plan.len();
        proof {
            lemma_mul_le(ne as int, c.topk as int, c.inter as int);
            lemma_mul_le(0, ne as int, c.inter as int);
        }
        let ghost want: Seq<CommandView> = self.single_token_cmds(x, plan@, slots@);
        q.push(Command::UploadAsync { data: pointer_table(plan, slots), dst: b.ptrs_dev });
        q.push(Command::Q8Rows { a: x, out: b.a_q8, rows: 1, k: c.dim as u32 });
        q.push(
            Command::MmvqExperts {
                format: BlockFormat::Q2K,
                table: b.ptrs_dev,
                a: b.a_q8,
                out: b.gate_out,
                n: c.inter as u32,
                k: c.dim as u32,
                rows: 1,
                experts: ne as u32,
                a_stride: 0,
            },
        );
        q.push(
            Command::MmvqExperts {
                format: BlockFormat::Q2K,
                table: at(b.ptrs_dev, ne * 8),
                a: b.a_q8,
                out: b.up_out,
                n: c.inter as u32,
                k: c.dim as u32,
                rows: 1,
                experts: ne as u32,
                a_stride: 0,
            },
        );
        assert(q@ =~= old(q)@ + want.take(4));
        self.launch_n(
            q,
            Kernel::MoeSwiglu,
            ne * c.inter,
            vec![
                Arg::Ptr(b.gate_out),
                Arg::Ptr(b.up_out),
                Arg::Ptr(b.weight_dev),
                Arg::Ptr(b.h),
                Arg::U32(ne as u32),
                Arg::U32(c.inter as u32),
                Arg::F32(c.swiglu_limit),
            ],
        );
        q.push(Command::Q8Rows { a: b.h, out: b.h_q8, rows: ne as u32, k: c.inter as u32 });
        q.push(
            Command::MmvqExperts {
                format: BlockFormat::Q3K,
                table: at(b.ptrs_dev, 2 * ne * 8),
                a: b.h_q8,
                out: b.down_out,
                n: c.dim as u32,
                k: c.inter as u32,
                rows: 1,
                experts: ne as u32,
                a_stride: self.row_inter as u32,
            },
        );
        launch(
            q,
            Kernel::MoeScatterAdd,
            ne as u32,
            1,
            256,
            1,
            vec![Arg::Ptr(b.acc), Arg::Ptr(b.down_out), Arg::Ptr(b.rows_dev), Arg::U32(c.dim as u32)],
        );
        assert(q@ =~= old(q)@ + want);
    }

    fn block_products(
        &self,
        q: &mut CommandQueue,
        format: BlockFormat,
        a: DevicePtr,
        a_q8: DevicePtr,
        products: &[(DevicePtr, DevicePtr)],
        rows: usize,
        n: usize,
        k: usize,
    )
        ensures
            final(q)@ == old(q)@ + Self::block_product_cmds(
                format,
                a,
                a_q8,
                products@,
                rows as int,
                n as int,
                k as int,
            ),
    {
        let count: usize = products.len();
        let ghost want: Seq<CommandView> = Self::block_product_cmds(
            format,
            a,
            a_q8,
            products@,
            rows as int,
            n as int,
            k as int,
        );
        if rows <= 8 {
            q.push(Command::Q8Rows { a, out: a_q8, rows: rows as u32, k: k as u32 });
        } else {
            q.push(Command::QuantizeAct { format, a, out: a_q8, rows: rows as u32, k: k as u32 });
        }
        assert(q@ =~= old(q)@ + want.take(1));
        for i in 0..count
            invariant
                count == products@.len(),
                want == Self::block_product_cmds(format, a, a_q8, products@, rows as int, n as int, k as int),
                q@ == old(q)@ + want.take(1 + i),
        {
            let (w, out) = products[i];
            if rows <= 8 {
                q.push(Command::Mmvq { format, w, a: a_q8, out, n: n as u32, k: k as u32, rows: rows as u32 });
            } else {
                q.push(Command::MmqGemm { format, a: a_q8, w, out, rows: rows as u32, n: n as u32, k: k as u32 });
            }
            assert(q@ =~= old(q)@ + want.take(1 + i + 1));
        }
        assert(want.take(1 + count) =~= want);
    }

    fn run_turn(&self, q: &mut CommandQueue, x: DevicePtr, step: &PlanStep, slot: &ExpertSlot)
        requires
            step.rows * self.cfg.inter <= usize::MAX,
            step.offset * 4 <= usize::MAX,
            has_room(self.buf.rows_dev, step.offset * 4),
            has_room(self.buf.weight_dev, step.offset * 4),
        ensures
            final(q)@ == old(q)@ + self.turn_cmds(x, *step, *slot),
    {
        let c: &MoeV41Cfg = &self.cfg;
        let b: &MoeV41Buffers = &self.buf;
        let r: usize = step.rows;
        let rows_ptr: DevicePtr = at(b.rows_dev, step.offset * 4);
        let w_ptr: DevicePtr = at(b.weight_dev, step.offset * 4);
        let ghost want: Seq<CommandView> = self.turn_cmds(x, *step, *slot);
        proof {
            lemma_mul_le(0, r as int, c.inter as int);
        }
        launch(
            q,
            Kernel::MoeGatherRows,
            r as u32,
            1,
            256,
            1,
            vec![Arg::Ptr(x), Arg::Ptr(rows_ptr), Arg::Ptr(b.a_rows), Arg::U32(c.dim as u32)],
        );
        let ghost s1: Seq<CommandView> = want.take(1);
        assert(q@ =~= old(q)@ + s1);
        let pair: [(DevicePtr, DevicePtr); 2] = [(slot.gate, b.gate_out), (slot.up, b.up_out)];
        self.block_products(q, BlockFormat::Q2K, b.a_rows, b.a_q8, pair.as_slice(), r, c.inter, c.dim);
        assert(pair@ =~= seq![(slot.gate, b.gate_out), (slot.up, b.up_out)]);
        let ghost s2: Seq<CommandView> = s1 + Self::block_product_cmds(
            BlockFormat::Q2K,
            b.a_rows,
            b.a_q8,
            seq![(slot.gate, b.gate_out), (slot.up, b.up_out)],
            r as int,
            c.inter as int,
            c.dim as int,
        );
        assert(q@ =~= old(q)@ + s2);
        let args: Vec<Arg> = vec![
            Arg::Ptr(b.gate_out),
            Arg::Ptr(b.up_out),
            Arg::Ptr(w_ptr),
            Arg::Ptr(b.h),
            Arg::U32(r as u32),
            Arg::U32(c.inter as u32),
            Arg::F32(c.swiglu_limit),
        ];
        let ghost s3: Seq<CommandView> = s2 + Self::per_value_cmds(Kernel::MoeSwiglu, r * c.inter, args@);
        self.launch_n(q, Kernel::MoeSwiglu, r * c.inter, args);
        assert(q@ =~= old(q)@ + s3);
        let one: [(DevicePtr, DevicePtr); 1] = [(slot.down, b.down_out)];
        self.block_products(q, BlockFormat::Q3K, b.h, b.h_q8, one.as_slice(), r, c.dim, c.inter);
        assert(one@ =~= seq![(slot.down, b.down_out)]);
        let ghost s4: Seq<CommandView> = s3 + Self::block_product_cmds(
            BlockFormat::Q3K,
            b.h,
            b.h_q8,
            seq![(slot.down, b.down_out)],
            r as int,
            c.dim as int,
            c.inter as int,
        );
        assert(q@ =~= old(q)@ + s4);
        launch(
            q,
            Kernel::MoeScatterAdd,
            r as u32,
            1,
            256,
            1,
            vec![Arg::Ptr(b.acc), Arg::Ptr(b.down_out), Arg::Ptr(rows_ptr), Arg::U32(c.dim as u32)],
        );
        assert(q@ =~= old(q)@ + want);
    }

    fn resident(
        &self,
        q: &mut CommandQueue,
        a: DevicePtr,
        a_q8: DevicePtr,
        w: ResidentMat,
        out: DevicePtr,
        m: usize,
        n: usize,
        k: usize,
    )
        ensures
            final(q)@ == old(q)@ + Self::resident_cmds(a, a_q8, w, out, m as int, n as int, k as int),
    {
        match w {
            ResidentMat::Bf16(p) => {
                if m == 1 {
                    q.push(Command::DenseGemv { a, w: p, out, n: n as u32, k: k as u32 });
                } else {
                    q.push(Command::DenseGemm { a, w: p, c: out, m: m as u32, n: n as u32, k: k as u32 });
                }
            },
            ResidentMat::Q2K(p) => {
                let one: [(DevicePtr, DevicePtr); 1] = [(p, out)];
                self.block_products(q, BlockFormat::Q2K, a, a_q8, one.as_slice(), m, n, k);
                assert(one@ =~= seq![(p, out)]);
            },
            ResidentMat::Q3K(p) => {
                let one: [(DevicePtr, DevicePtr); 1] = [(p, out)];
                self.block_products(q, BlockFormat::Q3K, a, a_q8, one.as_slice(), m, n, k);
                assert(one@ =~= seq![(p, out)]);
            },
        }
        assert(q@ =~= old(q)@ + Self::resident_cmds(a, a_q8, w, out, m as int, n as int, k as int));
    }

    fn run_shared(&self, q: &mut CommandQueue, w: &MoeV41LayerWeights, x: DevicePtr, m: usize)
        requires
            m * self.cfg.inter <= usize::MAX,
            m * self.cfg.dim <= usize::MAX,
        ensures
            final(q)@ == old(q)@ + self.shared_cmds(w, x, m as int),
    {
        let c: &MoeV41Cfg = &self.cfg;
        let b: &MoeV41Buffers = &self.buf;
        let dim: usize = c.dim;
        let inter: usize = c.inter;
        proof {
            lemma_mul_le(0, m as int, inter as int);
            lemma_mul_le(0, m as int, dim as int);
        }
        self.resident(q, x, b.a_q8, w.shared_w1, b.sg, m, inter, dim);
        let ghost s1: Seq<CommandView> = Self::resident_cmds(
            x,
            b.a_q8,
            w.shared_w1,
            b.sg,
            m as int,
            inter as int,
            dim as int,
        );
        assert(q@ =~= old(q)@ + s1);
        self.resident(q, x, b.a_q8, w.shared_w3, b.su, m, inter, dim);
        let ghost s2: Seq<CommandView> = s1 + Self::resident_cmds(
            x,
            b.a_q8,
            w.shared_w3,
            b.su,
            m as int,
            inter as int,
            dim as int,
        );
        assert(q@ =~= old(q)@ + s2);
        let args: Vec<Arg> = vec![
            Arg::Ptr(b.sg),
            Arg::Ptr(b.su),
            Arg::Ptr(DevicePtr(0)),
            Arg::Ptr(b.sh),
            Arg::U32(m as u32),
            Arg::U32(c.inter as u32),
            Arg::F32(c.swiglu_limit),
        ];
        let ghost s3: Seq<CommandView> = s2 + Self::per_value_cmds(Kernel::MoeSwiglu, m * inter, args@);
        self.launch_n(q, Kernel::MoeSwiglu, m * inter, args);
        assert(q@ =~= old(q)@ + s3);
        self.resident(q, b.sh, b.h_q8, w.shared_w2, b.sd, m, dim, inter);
        let ghost s4: Seq<CommandView> = s3 + Self::resident_cmds(
            b.sh,
            b.h_q8,
            w.shared_w2,
            b.sd,
            m as int,
            dim as int,
            inter as int,
        );
        assert(q@ =~= old(q)@ + s4);
        let acc_args: Vec<Arg> = vec![Arg::Ptr(b.acc), Arg::Ptr(b.sd), Arg::U32((m * dim) as u32)];
        let ghost s5: Seq<CommandView> = s4 + Self::per_value_cmds(Kernel::MoeAccumulate, m * dim, acc_args@);
        self.launch_n(q, Kernel::MoeAccumulate, m * dim, acc_args);
        assert(q@ =~= old(q)@ + s5);
        self.launch_n(
            q,
            Kernel::MoeFinish,
            m * dim,
            vec![Arg::Ptr(b.acc), Arg::Ptr(b.out), Arg::U32((m * dim) as u32)],
        );
        assert(q@ =~= old(q)@ + self.shared_cmds(w, x, m as int));
    }

    fn run_turns(
        &self,
        q: &mut CommandQueue,
        x: DevicePtr,
        m: usize,
        indices: &[usize],
        plan: &Vec<PlanStep>,
        slots: &[ExpertSlot],
    )
        requires
            self.wf(),
            1 <= m <= self.cfg.max_tokens,
            plan@ == plan_of(indices@, self.cfg.n_routed as int),
            routing_is_sound(indices@, m as int, self.cfg.topk as int, self.cfg.n_routed as int),
            slots@.len() == indices@.len(),
        ensures
            final(q)@ == old(q)@ + concat_rows(
                plan@.len(),
                |i: int| self.turn_cmds(x, plan@[i], slots@[plan@[i].first as int]),
            ),
    {
        let c: &MoeV41Cfg = &self.cfg;
        let count: usize = indices.len();
        let turns: usize = plan.len();
        let ghost f = |i: int| self.turn_cmds(x, plan@[i], slots@[plan@[i].first as int]);
        assert(q@ =~= old(q)@ + concat_rows(0, f));
        for i in 0..turns
            invariant
                self.wf(),
                c == &self.cfg,
                1 <= m <= c.max_tokens,
                turns == plan@.len(),
                count == indices@.len(),
                plan@ == plan_of(indices@, c.n_routed as int),
                routing_is_sound(indices@, m as int, c.topk as int, c.n_routed as int),
                slots@.len() == indices@.len(),
                f == |i: int| self.turn_cmds(x, plan@[i], slots@[plan@[i].first as int]),
                q@ == old(q)@ + concat_rows(i as nat, f),
        {
            let step: PlanStep = plan[i];
            proof {
                lemma_plan(indices@, c.n_routed as int);
                let e: int = indices@[step.first as int] as int;
                let order: Seq<usize> = group_major(indices@, c.n_routed as int);
                assert(order.subrange(step.offset as int, step.offset + step.rows).len() == step.rows);
                lemma_members_are_distinct_tokens(indices@, m as int, c.topk as int, c.n_routed as int, e);
                lemma_mul_le(step.rows as int, m as int, c.inter as int);
                lemma_mul_le(m as int, c.max_tokens as int, c.inter as int);
                lemma_mul_le(m as int, c.max_tokens as int, c.topk as int);
            }
            let slot: ExpertSlot = slots[step.first];
            self.run_turn(q, x, &step, &slot);
            assert(q@ =~= old(q)@ + (concat_rows(i as nat, f) + f(i as int)));
        }
    }

    /// One layer's experts for `m` tokens: the routed ones, from their slots on
    /// the device, plus the shared one. `weights` and `indices` are the routing
    /// `[m][topk]`, `slots` the experts' weights in the same order. Returns
    /// where the output goes, bf16 `[m, dim]`.
    pub fn forward(
        &self,
        q: &mut CommandQueue,
        w: &MoeV41LayerWeights,
        x: DevicePtr,
        m: usize,
        weights: &[u32],
        indices: &[usize],
        slots: &[ExpertSlot],
    ) -> (r: DevicePtr)
        requires
            self.wf(),
            1 <= m <= self.cfg.max_tokens,
            routing_is_sound(indices@, m as int, self.cfg.topk as int, self.cfg.n_routed as int),
            weights@.len() == indices@.len(),
            slots@.len() == indices@.len(),
        ensures
            r == self.buf.out,
            final(q)@ == old(q)@ + self.forward_cmds(w, x, m as int, weights@, indices@, slots@),
    {
        let c: &MoeV41Cfg = &self.cfg;
        let b: &MoeV41Buffers = &self.buf;
        let count: usize = indices.len();
        let (order, plan) = group_by_expert(indices, c.n_routed);
        proof {
            lemma_plan(indices@, c.n_routed as int);
            lemma_group_major(indices@, c.n_routed as int);
            lemma_mul_le(m as int, c.max_tokens as int, c.topk as int);
            lemma_mul_le(m as int, c.max_tokens as int, c.dim as int);
            lemma_mul_le(m as int, c.max_tokens as int, c.inter as int);
            lemma_mul_le(0, m as int, c.dim as int);
            lemma_mul_le(0, m as int, c.inter as int);
            if c.topk == 0 {
                assert(m * 0 == 0);
            }
        }
        let (row_bytes, w_bytes) = assignment_bytes(&order, weights, c.topk);
        let ghost head: Seq<CommandView> = seq![
            CommandView::UploadAsync { data: row_bytes@, dst: b.rows_dev },
            CommandView::UploadAsync { data: w_bytes@, dst: b.weight_dev },
            CommandView::MemsetAsync { dst: b.acc, value: 0, bytes: m * c.dim * 4 },
        ];
        q.push(Command::UploadAsync { data: row_bytes, dst: b.rows_dev });
        q.push(Command::UploadAsync { data: w_bytes, dst: b.weight_dev });
        q.push(Command::MemsetAsync { dst: b.acc, value: 0, bytes: m * c.dim * 4 });
        assert(q@ =~= old(q)@ + head);
        let ghost routed: Seq<CommandView> = self.routed_cmds(x, m as int, plan@, slots@);
        let ghost shared: Seq<CommandView> = self.shared_cmds(w, x, m as int);
        let ghost tail: Seq<CommandView> = if self.timing_sync {
            seq![CommandView::Synchronize]
        } else {
            seq![]
        };
        if m == 1 {
            assert(1 * c.topk == c.topk);
            self.run_single_token(q, x, &plan, slots);
        } else {
            self.run_turns(q, x, m, indices, &plan, slots);
        }
        assert(q@ == old(q)@ + head + routed);
        self.run_shared(q, w, x, m);
        assert(q@ == old(q)@ + head + routed + shared);
        let ghost issued: Seq<CommandView> = q@;
        if self.timing_sync {
            q.push(Command::Synchronize);
        }
        proof {
            assert(q@ =~= issued + tail);
            lemma_append_all(old(q)@, head, routed, shared, tail);
        }
        b.out
    }
}

} // verus!
