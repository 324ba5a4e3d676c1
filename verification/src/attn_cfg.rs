//! The attention layers' geometry, roles, weights and device state.

use crate::bytes::{f32_bytes, words_bytes};
use crate::device::{at_least_16, freed, has_room, is_roomy, padded_16, Command, CommandQueue, CommandView, DevicePtr};
use crate::float_bits::NEG_INFINITY;
use crate::rows::{filled, lemma_mul_le, product_fits};
use vstd::prelude::*;

verus! {

/// Model-wide attention geometry. Floats are bit patterns.
#[derive(Clone, Copy, Debug)]
pub struct AttnV41Cfg {
    pub dim: usize,
    pub n_heads: usize,
    pub head_dim: usize,
    pub rope_dim: usize,
    pub q_rank: usize,
    pub o_rank: usize,
    pub groups: usize,
    pub window: usize,
    pub eps: u32,
    pub index_heads: usize,
    pub index_hd: usize,
    pub index_topk: usize,
    pub cand_topk_blocks: usize,
    pub cand_block: usize,
    pub max_seq: usize,
    pub max_tokens: usize,
    pub rope_theta: u32,
    pub compress_rope_theta: u32,
    pub rope_factor: u32,
    pub orig_seq: usize,
    pub beta_fast: u32,
    pub beta_slow: u32,
}

/// What one layer is, in the shared runtime.
#[derive(Clone, Copy, Debug, PartialEq, Eq, Structural)]
pub struct LayerRole {
    pub ratio: usize,
    pub is_kv_source: bool,
    pub is_index_source: bool,
    pub is_candidate_source: bool,
    pub uses_candidates: bool,
}

impl Default for LayerRole {
    fn default() -> (r: Self)
        ensures
            r == (LayerRole {
                ratio: 0,
                is_kv_source: false,
                is_index_source: false,
                is_candidate_source: false,
                uses_candidates: false,
            }),
    {
        LayerRole {
            ratio: 0,
            is_kv_source: false,
            is_index_source: false,
            is_candidate_source: false,
            uses_candidates: false,
        }
    }
}

/// Why an attention layer refuses a configuration or a call.
#[derive(Clone, Copy, Debug, PartialEq, Eq, Structural)]
pub enum AttnError {
    /// the rotated part of a head is odd or too wide
    RopeDim { rope_dim: usize },
    /// the heads do not divide into the groups of the output projection
    HeadGroups,
    /// a head width is no multiple of the quantiser block
    HeadBlocks,
    /// more tokens than the workspaces hold, or none
    Tokens { m: usize, max_tokens: usize },
    /// the call ends behind the last position
    Position { end: usize, max_seq: usize },
    /// a kv source without compressor weights
    NoCompressorWeights,
    /// a pooling compressor without its gate
    NoGate,
    /// a pooling compressor without its partial group
    NoCompressorState,
    /// an index source without indexer weights
    NoIndexerWeights,
    /// a kv source without the key projection
    NoIndexWk,
    /// a kv source without the norm of the keys
    NoIndexKNorm,
    /// an indexer before any index keys were published
    NoIndexKeys,
    /// the candidate mask is for another call
    CandidateMask { held: usize, m: usize, width: usize },
    /// a kv source without a latent cache
    NoLatentCache,
    /// a compressed layer before any kv source published
    NoCompressedRows,
    /// the shared selection is for another call
    IndexSelection { held: usize, m: usize, topk: usize },
    /// more positions per query than the workspace holds
    Topk { topk: usize },
}

/// The largest sum of positions that the attention kernel takes per query.
pub const MAX_TOPK: usize = 2048;

/// The sizes in bytes of the workspaces.
#[derive(Clone, Copy, Debug, PartialEq, Eq, Structural)]
pub struct AttnV41Layout {
    pub qr_raw: usize,
    pub qr: usize,
    pub q: usize,
    pub kv_raw: usize,
    pub kv: usize,
    pub o: usize,
    pub o_rot: usize,
    pub og: usize,
    pub slice_in: usize,
    pub slice_out: usize,
    pub out: usize,
    pub pos: usize,
    pub head_pos: usize,
    pub idx_pos: usize,
    pub grp_pos: usize,
    pub idx_dev: usize,
    pub ckv: usize,
    pub cscore: usize,
    pub pooled: usize,
    pub latent_raw: usize,
    pub latent: usize,
    pub ik_raw: usize,
    pub ik: usize,
    pub iq: usize,
    pub iw_raw: usize,
    pub iw: usize,
    pub score: usize,
}

/// The RoPE tables and the workspaces on the device.
#[derive(Clone, Copy, Debug, PartialEq, Eq, Structural)]
pub struct AttnV41Buffers {
    /// f32 `[max_seq][rope_dim / 2]` of cosine and sine
    pub fc_plain: DevicePtr,
    /// the same with the frequencies of the compressed layers
    pub fc_yarn: DevicePtr,
    pub qr_raw: DevicePtr,
    pub qr: DevicePtr,
    pub q: DevicePtr,
    pub kv_raw: DevicePtr,
    pub kv: DevicePtr,
    pub o: DevicePtr,
    pub o_rot: DevicePtr,
    pub og: DevicePtr,
    pub slice_in: DevicePtr,
    pub slice_out: DevicePtr,
    pub out: DevicePtr,
    pub pos: DevicePtr,
    pub head_pos: DevicePtr,
    pub idx_pos: DevicePtr,
    pub grp_pos: DevicePtr,
    pub idx_dev: DevicePtr,
    pub ckv: DevicePtr,
    pub cscore: DevicePtr,
    pub pooled: DevicePtr,
    pub latent_raw: DevicePtr,
    pub latent: DevicePtr,
    pub ik_raw: DevicePtr,
    pub ik: DevicePtr,
    pub iq: DevicePtr,
    pub iw_raw: DevicePtr,
    pub iw: DevicePtr,
    pub score: DevicePtr,
}

impl AttnV41Buffers {
    /// The workspaces have the room that the layout asks for.
    pub open spec fn roomy(&self, l: AttnV41Layout) -> bool {
        &&& has_room(self.qr_raw, l.qr_raw as int)
        &&& has_room(self.qr, l.qr as int)
        &&& has_room(self.q, l.q as int)
        &&& has_room(self.kv_raw, l.kv_raw as int)
        &&& has_room(self.kv, l.kv as int)
        &&& has_room(self.o, l.o as int)
        &&& has_room(self.o_rot, l.o_rot as int)
        &&& has_room(self.og, l.og as int)
        &&& has_room(self.slice_in, l.slice_in as int)
        &&& has_room(self.slice_out, l.slice_out as int)
        &&& has_room(self.out, l.out as int)
        &&& has_room(self.pos, l.pos as int)
        &&& has_room(self.head_pos, l.head_pos as int)
        &&& has_room(self.idx_pos, l.idx_pos as int)
        &&& has_room(self.grp_pos, l.grp_pos as int)
        &&& has_room(self.idx_dev, l.idx_dev as int)
        &&& has_room(self.ckv, l.ckv as int)
        &&& has_room(self.cscore, l.cscore as int)
        &&& has_room(self.pooled, l.pooled as int)
        &&& has_room(self.latent_raw, l.latent_raw as int)
        &&& has_room(self.latent, l.latent as int)
        &&& has_room(self.ik_raw, l.ik_raw as int)
        &&& has_room(self.ik, l.ik as int)
        &&& has_room(self.iq, l.iq as int)
        &&& has_room(self.iw_raw, l.iw_raw as int)
        &&& has_room(self.iw, l.iw as int)
        &&& has_room(self.score, l.score as int)
    }

    /// Whether the workspaces have the room that the layout asks for.
    pub fn have_room(&self, l: &AttnV41Layout) -> (r: bool)
        ensures
            r == self.roomy(*l),
    {
        is_roomy(self.qr_raw, l.qr_raw) && is_roomy(self.qr, l.qr) && is_roomy(self.q, l.q) && is_roomy(
            self.kv_raw,
            l.kv_raw,
        ) && is_roomy(self.kv, l.kv) && is_roomy(self.o, l.o) && is_roomy(self.o_rot, l.o_rot) && is_roomy(
            self.og,
            l.og,
        ) && is_roomy(self.slice_in, l.slice_in) && is_roomy(self.slice_out, l.slice_out) && is_roomy(self.out, l.out)
            && is_roomy(self.pos, l.pos) && is_roomy(self.head_pos, l.head_pos) && is_roomy(self.idx_pos, l.idx_pos)
            && is_roomy(self.grp_pos, l.grp_pos) && is_roomy(self.idx_dev, l.idx_dev) && is_roomy(self.ckv, l.ckv)
            && is_roomy(self.cscore, l.cscore) && is_roomy(self.pooled, l.pooled) && is_roomy(
            self.latent_raw,
            l.latent_raw,
        ) && is_roomy(self.latent, l.latent) && is_roomy(self.ik_raw, l.ik_raw) && is_roomy(self.ik, l.ik) && is_roomy(
            self.iq,
            l.iq,
        ) && is_roomy(self.iw_raw, l.iw_raw) && is_roomy(self.iw, l.iw) && is_roomy(self.score, l.score)
    }

    /// All buffers, in the order in which they are given back.
    pub open spec fn all(&self) -> Seq<DevicePtr> {
        seq![
            self.fc_plain,
            self.fc_yarn,
            self.qr_raw,
            self.qr,
            self.q,
            self.kv_raw,
            self.kv,
            self.o,
            self.o_rot,
            self.og,
            self.slice_in,
            self.slice_out,
            self.out,
            self.pos,
            self.head_pos,
            self.idx_pos,
            self.grp_pos,
            self.idx_dev,
            self.ckv,
            self.cscore,
            self.pooled,
            self.latent_raw,
            self.latent,
            self.ik_raw,
            self.ik,
            self.iq,
            self.iw_raw,
            self.iw,
            self.score,
        ]
    }
}

/// `x` is a multiple of `y`; of 0 only 0 is.
pub open spec fn divides(x: int, y: int) -> bool {
    if y == 0 {
        x == 0
    } else {
        x % y == 0
    }
}

impl AttnV41Cfg {
    /// The width of one group of the output projection.
    pub open spec fn group_width(&self) -> int {
        (self.n_heads * self.head_dim) / self.groups as int
    }

    /// The width of one group of the output projection.
    pub fn gw(&self) -> (r: usize)
        requires
            self.groups > 0,
            self.n_heads * self.head_dim <= usize::MAX,
        ensures
            r == self.group_width(),
    {
        self.n_heads * self.head_dim / self.groups
    }

    /// What the kernels can run.
    pub open spec fn supported(&self) -> bool {
        &&& self.rope_dim % 2 == 0
        &&& self.rope_dim / 2 <= 256
        &&& divides(self.head_dim * self.n_heads, self.groups as int)
        &&& self.head_dim % 32 == 0
        &&& self.index_hd % 32 == 0
    }

    /// Which requirement a geometry that is not supported fails first.
    pub open spec fn refusal(&self) -> AttnError {
        if !(self.rope_dim % 2 == 0 && self.rope_dim / 2 <= 256) {
            AttnError::RopeDim { rope_dim: self.rope_dim }
        } else if !divides(self.head_dim * self.n_heads, self.groups as int) {
            AttnError::HeadGroups
        } else {
            AttnError::HeadBlocks
        }
    }

    /// The products of the geometry are machine integers.
    pub open spec fn fits(&self) -> bool {
        let m: int = self.max_tokens as int;
        let hd: int = self.head_dim as int;
        let seq: int = if self.max_seq > 0 { self.max_seq as int } else { 1 };
        &&& m * 4 <= usize::MAX
        &&& self.n_heads * self.head_dim <= usize::MAX
        &&& m * self.n_heads * hd * 2 <= usize::MAX
        &&& m * self.n_heads * 4 <= usize::MAX
        &&& m * self.q_rank * 2 <= usize::MAX
        &&& self.groups * self.o_rank <= usize::MAX
        &&& m * self.groups <= usize::MAX
        &&& m * self.groups * self.o_rank * 2 <= usize::MAX
        &&& m * self.o_rank * 2 <= usize::MAX
        &&& self.groups * self.o_rank * self.group_width() * 2 <= usize::MAX
        &&& m * self.group_width() * 2 <= usize::MAX
        &&& m * self.dim * 2 <= usize::MAX
        &&& m * hd * 4 <= usize::MAX
        &&& m * self.index_hd * 2 <= usize::MAX
        &&& self.index_heads * self.index_hd <= usize::MAX
        &&& m * self.index_heads * 4 <= usize::MAX
        &&& m * self.index_heads * self.index_hd * 2 <= usize::MAX
        &&& self.window + self.index_topk <= usize::MAX
        &&& m * (self.window + self.index_topk) * 4 <= usize::MAX
        &&& m * self.max_seq * 4 <= usize::MAX
        &&& self.window * hd * 2 <= usize::MAX
        &&& seq * hd * 2 <= usize::MAX
        &&& seq * self.index_hd * 2 <= usize::MAX
        &&& self.window + self.max_seq <= usize::MAX
    }

    /// Whether the products of the geometry are machine integers.
    pub fn is_representable(&self) -> (r: bool)
        requires
            self.groups > 0,
        ensures
            r == self.fits(),
    {
        let m: usize = self.max_tokens;
        let nh: usize = self.n_heads;
        let hd: usize = self.head_dim;
        let nhi: usize = self.index_heads;
        let ihd: usize = self.index_hd;
        let seq: usize = if self.max_seq > 0 { self.max_seq } else { 1 };
        if !product_fits(nh, hd, 1, 1) {
            return false;
        }
        let gw: usize = self.gw();
        let top: usize = match self.window.checked_add(self.index_topk) {
            Some(top) => top,
            None => {
                return false;
            },
        };
        self.window.checked_add(self.max_seq).is_some() && product_fits(m, 4, 1, 1) && product_fits(m, nh, hd, 2)
            && product_fits(m, nh, 4, 1) && product_fits(m, self.q_rank, 2, 1) && product_fits(
            self.groups,
            self.o_rank,
            1,
            1,
        ) && product_fits(m, self.groups, 1, 1) && product_fits(m, self.groups, self.o_rank, 2) && product_fits(
            m,
            self.o_rank,
            2,
            1,
        ) && product_fits(self.groups, self.o_rank, gw, 2) && product_fits(m, gw, 2, 1) && product_fits(
            m,
            self.dim,
            2,
            1,
        ) && product_fits(m, hd, 4, 1) && product_fits(m, ihd, 2, 1) && product_fits(nhi, ihd, 1, 1) && product_fits(
            m,
            nhi,
            4,
            1,
        ) && product_fits(m, nhi, ihd, 2) && product_fits(m, top, 4, 1) && product_fits(m, self.max_seq, 4, 1)
            && product_fits(self.window, hd, 2, 1) && product_fits(seq, hd, 2, 1) && product_fits(seq, ihd, 2, 1)
    }

    /// Whether the kernels can run this geometry, and which requirement fails
    /// first.
    pub fn check(&self) -> (r: Result<(), AttnError>)
        requires
            self.head_dim * self.n_heads <= usize::MAX,
        ensures
            r is Ok <==> self.supported(),
            r matches Err(e) ==> e == self.refusal(),
    {
        if self.rope_dim % 2 != 0 || self.rope_dim / 2 > 256 {
            return Err(AttnError::RopeDim { rope_dim: self.rope_dim });
        }
        let heads: usize = self.head_dim * self.n_heads;
        if (self.groups == 0 && heads != 0) || (self.groups != 0 && heads % self.groups != 0) {
            return Err(AttnError::HeadGroups);
        }
        if self.head_dim % 32 != 0 || self.index_hd % 32 != 0 {
            return Err(AttnError::HeadBlocks);
        }
        Ok(())
    }

    /// The sizes of the workspaces for up to `max_tokens` positions per call.
    pub open spec fn layout_of(&self) -> AttnV41Layout {
        let m: int = self.max_tokens as int;
        let nh: int = self.n_heads as int;
        let hd: int = self.head_dim as int;
        let nhi: int = self.index_heads as int;
        let ihd: int = self.index_hd as int;
        AttnV41Layout {
            qr_raw: at_least_16(m * self.q_rank * 2) as usize,
            qr: at_least_16(m * self.q_rank * 2) as usize,
            q: at_least_16(m * nh * hd * 2) as usize,
            kv_raw: at_least_16(m * hd * 2) as usize,
            kv: at_least_16(m * hd * 2) as usize,
            o: at_least_16(m * nh * hd * 2) as usize,
            o_rot: at_least_16(m * nh * hd * 2) as usize,
            og: at_least_16(m * self.groups * self.o_rank * 2) as usize,
            slice_in: at_least_16(m * self.group_width() * 2) as usize,
            slice_out: at_least_16(m * self.o_rank * 2) as usize,
            out: at_least_16(m * self.dim * 2) as usize,
            pos: at_least_16(m * 4) as usize,
            head_pos: at_least_16(m * nh * 4) as usize,
            idx_pos: at_least_16(m * nhi * 4) as usize,
            grp_pos: at_least_16(m * 4) as usize,
            idx_dev: at_least_16(m * (self.window + self.index_topk) * 4) as usize,
            ckv: at_least_16(m * hd * 4) as usize,
            cscore: at_least_16(m * hd * 4) as usize,
            pooled: at_least_16(m * hd * 4) as usize,
            latent_raw: at_least_16(m * hd * 2) as usize,
            latent: at_least_16(m * hd * 2) as usize,
            ik_raw: at_least_16(m * ihd * 2) as usize,
            ik: at_least_16(m * ihd * 2) as usize,
            iq: at_least_16(m * nhi * ihd * 2) as usize,
            iw_raw: at_least_16(m * nhi * 2) as usize,
            iw: at_least_16(m * nhi * 2) as usize,
            score: at_least_16(m * self.max_seq * 4) as usize,
        }
    }

    /// The sizes of the workspaces for up to `max_tokens` positions per call.
    pub fn layout(&self) -> (r: AttnV41Layout)
        requires
            self.groups > 0,
            self.fits(),
        ensures
            r == self.layout_of(),
    {
        let m: usize = self.max_tokens;
        let nh: usize = self.n_heads;
        let hd: usize = self.head_dim;
        let nhi: usize = self.index_heads;
        let ihd: usize = self.index_hd;
        let max_topk: usize = self.window + self.index_topk;
        let gw: usize = self.gw();
        AttnV41Layout {
            qr_raw: padded_16(m * self.q_rank * 2),
            qr: padded_16(m * self.q_rank * 2),
            q: padded_16(m * nh * hd * 2),
            kv_raw: padded_16(m * hd * 2),
            kv: padded_16(m * hd * 2),
            o: padded_16(m * nh * hd * 2),
            o_rot: padded_16(m * nh * hd * 2),
            og: padded_16(m * self.groups * self.o_rank * 2),
            slice_in: padded_16(m * gw * 2),
            slice_out: padded_16(m * self.o_rank * 2),
            out: padded_16(m * self.dim * 2),
            pos: padded_16(m * 4),
            head_pos: padded_16(m * nh * 4),
            idx_pos: padded_16(m * nhi * 4),
            grp_pos: padded_16(m * 4),
            idx_dev: padded_16(m * max_topk * 4),
            ckv: padded_16(m * hd * 4),
            cscore: padded_16(m * hd * 4),
            pooled: padded_16(m * hd * 4),
            latent_raw: padded_16(m * hd * 2),
            latent: padded_16(m * hd * 2),
            ik_raw: padded_16(m * ihd * 2),
            ik: padded_16(m * ihd * 2),
            iq: padded_16(m * nhi * ihd * 2),
            iw_raw: padded_16(m * nhi * 2),
            iw: padded_16(m * nhi * 2),
            score: padded_16(m * self.max_seq * 4),
        }
    }
}

/// Compressor weights, of kv sources only. Above ratio 1 `kv` and `gate` are
/// f32 `[hd, dim]`; at ratio 1 `kv` is bf16.
#[derive(Clone, Copy, Debug, PartialEq, Eq, Structural)]
pub struct CompressorWeightsGpu {
    pub kv: DevicePtr,
    pub gate: Option<DevicePtr>,
    /// f32 `[hd]`
    pub norm: DevicePtr,
}

/// Indexer weights, of index sources only; `wk` and `k_norm` on kv sources.
#[derive(Clone, Copy, Debug, PartialEq, Eq, Structural)]
pub struct IndexerWeightsGpu {
    /// bf16 `[index_heads * index_hd, q_rank]`
    pub wq_b: DevicePtr,
    /// bf16 `[index_heads, dim]`
    pub weights_proj: DevicePtr,
    /// bf16 `[index_hd, hd]`
    pub wk: Option<DevicePtr>,
    /// f32 `[index_hd]`
    pub k_norm: Option<DevicePtr>,
}

/// One layer's resident attention weights; bf16 `[out, in]` unless noted.
#[derive(Clone, Copy, Debug, PartialEq, Eq, Structural)]
pub struct AttnV41LayerWeights {
    pub role: LayerRole,
    /// f32 `[n_heads]`
    pub sink: DevicePtr,
    pub wq_a: DevicePtr,
    /// f32 `[q_rank]`
    pub q_norm: DevicePtr,
    pub wq_b: DevicePtr,
    pub wkv: DevicePtr,
    /// f32 `[hd]`
    pub kv_norm: DevicePtr,
    /// `[groups * o_rank, gw]`
    pub wo_a: DevicePtr,
    /// `[dim, groups * o_rank]`
    pub wo_b: DevicePtr,
    pub comp: Option<CompressorWeightsGpu>,
    pub idx: Option<IndexerWeightsGpu>,
}

/// The sizes in bytes of a layer's device state; no sizes for what only kv
/// sources have.
#[derive(Clone, Copy, Debug, PartialEq, Eq, Structural)]
pub struct AttnV41StateLayout {
    pub window: usize,
    /// of each of the two halves of the partial group
    pub comp_state: Option<usize>,
    pub compress_kv: Option<usize>,
    pub index_k: Option<usize>,
}

/// One layer's device state across prefill and decode.
#[derive(Clone, Copy, Debug, PartialEq, Eq)]
pub struct AttnV41LayerState {
    /// bf16 `[window, hd]`
    pub window: DevicePtr,
    /// f32 `[ratio, hd]` twice, the partial group of a pooling compressor
    pub comp_state: Option<(DevicePtr, DevicePtr)>,
    /// bf16 `[max_groups, hd]`, of kv sources
    pub compress_kv: Option<DevicePtr>,
    /// bf16 `[max_groups, index_hd]`, of kv sources
    pub index_k: Option<DevicePtr>,
}

/// At least one.
pub open spec fn at_least_1(x: int) -> int {
    if x < 1 {
        1
    } else {
        x
    }
}

impl AttnV41LayerState {
    /// How much device memory a layer's state takes.
    pub open spec fn layout_of(c: &AttnV41Cfg, role: LayerRole) -> AttnV41StateLayout {
        let ratio: int = at_least_1(role.ratio as int);
        let groups: int = at_least_1(c.max_seq as int / ratio);
        AttnV41StateLayout {
            window: (c.window * c.head_dim * 2) as usize,
            comp_state: if role.is_kv_source {
                Some((ratio * c.head_dim * 4) as usize)
            } else {
                None
            },
            compress_kv: if role.is_kv_source {
                Some((groups * c.head_dim * 2) as usize)
            } else {
                None
            },
            index_k: if role.is_kv_source {
                Some((groups * c.index_hd * 2) as usize)
            } else {
                None
            },
        }
    }

    /// How much device memory a layer's state takes.
    pub fn layout(c: &AttnV41Cfg, role: LayerRole) -> (r: AttnV41StateLayout)
        requires
            c.fits(),
            at_least_1(role.ratio as int) * c.head_dim * 4 <= usize::MAX,
        ensures
            r == Self::layout_of(c, role),
    {
        let ratio: usize = if role.ratio < 1 { 1 } else { role.ratio };
        let held: usize = c.max_seq / ratio;
        let groups: usize = if held < 1 { 1 } else { held };
        proof {
            lemma_state_fits(c, role);
        }
        let window: usize = c.window * c.head_dim * 2;
        if role.is_kv_source {
            AttnV41StateLayout {
                window,
                comp_state: Some(ratio * c.head_dim * 4),
                compress_kv: Some(groups * c.head_dim * 2),
                index_k: Some(groups * c.index_hd * 2),
            }
        } else {
            AttnV41StateLayout { window, comp_state: None, compress_kv: None, index_k: None }
        }
    }

    /// The buffers have the room that the layout asks for, and there is one
    /// wherever there is a size.
    pub open spec fn roomy(&self, l: AttnV41StateLayout) -> bool {
        &&& has_room(self.window, l.window as int)
        &&& match (self.comp_state, l.comp_state) {
            (Some((a, b)), Some(n)) => has_room(a, n as int) && has_room(b, n as int),
            (None, None) => true,
            _ => false,
        }
        &&& match (self.compress_kv, l.compress_kv) {
            (Some(p), Some(n)) => has_room(p, n as int),
            (None, None) => true,
            _ => false,
        }
        &&& match (self.index_k, l.index_k) {
            (Some(p), Some(n)) => has_room(p, n as int),
            (None, None) => true,
            _ => false,
        }
    }

    /// Whatever buffers there are have the room that a layer of this ratio
    /// needs.
    pub open spec fn room_for(&self, c: &AttnV41Cfg, ratio: int) -> bool {
        &&& has_room(self.window, c.window * c.head_dim * 2)
        &&& self.comp_state matches Some((a, b)) ==> {
            &&& ratio * c.head_dim * 4 <= usize::MAX
            &&& has_room(a, ratio * c.head_dim * 4)
            &&& has_room(b, ratio * c.head_dim * 4)
        }
        &&& self.compress_kv matches Some(p) ==> has_room(p, (c.max_seq as int / ratio) * c.head_dim * 2)
        &&& self.index_k matches Some(p) ==> has_room(p, (c.max_seq as int / ratio) * c.index_hd * 2)
    }

    /// Whether the buffers have the room that the layout asks for, and there is
    /// one wherever there is a size.
    pub fn have_room(&self, l: &AttnV41StateLayout) -> (r: bool)
        ensures
            r == self.roomy(*l),
    {
        let state: bool = match (self.comp_state, l.comp_state) {
            (Some((a, b)), Some(n)) => is_roomy(a, n) && is_roomy(b, n),
            (None, None) => true,
            _ => false,
        };
        let rows: bool = match (self.compress_kv, l.compress_kv) {
            (Some(p), Some(n)) => is_roomy(p, n),
            (None, None) => true,
            _ => false,
        };
        let keys: bool = match (self.index_k, l.index_k) {
            (Some(p), Some(n)) => is_roomy(p, n),
            (None, None) => true,
            _ => false,
        };
        is_roomy(self.window, l.window) && state && rows && keys
    }

    /// Whether whatever buffers there are have the room that a layer of this
    /// ratio needs.
    pub fn has_room_for(&self, c: &AttnV41Cfg, ratio: usize) -> (r: bool)
        requires
            c.fits(),
            ratio > 0,
        ensures
            r == self.room_for(c, ratio as int),
    {
        let held: usize = c.max_seq / ratio;
        proof {
            assert(held <= c.max_seq) by (nonlinear_arith)
                requires
                    held == c.max_seq / ratio,
                    ratio > 0,
            ;
            lemma_mul_le(held as int, c.max_seq as int, c.head_dim as int);
            lemma_mul_le(held as int, c.max_seq as int, c.index_hd as int);
            lemma_mul_le(0, held as int, c.head_dim as int);
            lemma_mul_le(0, held as int, c.index_hd as int);
            lemma_mul_le(0, c.window as int, c.head_dim as int);
            lemma_mul_le(0, ratio as int, c.head_dim as int);
        }
        let state: bool = match self.comp_state {
            Some((a, b)) => product_fits(ratio, c.head_dim, 4, 1) && is_roomy(a, ratio * c.head_dim * 4) && is_roomy(
                b,
                ratio * c.head_dim * 4,
            ),
            None => true,
        };
        let rows: bool = match self.compress_kv {
            Some(p) => is_roomy(p, held * c.head_dim * 2),
            None => true,
        };
        let keys: bool = match self.index_k {
            Some(p) => is_roomy(p, held * c.index_hd * 2),
            None => true,
        };
        is_roomy(self.window, c.window * c.head_dim * 2) && state && rows && keys
    }

    /// The commands that put fresh buffers into the state of an empty sequence:
    /// zeros, and scores at negative infinity.
    pub open spec fn init_cmds(&self, c: &AttnV41Cfg, role: LayerRole) -> Seq<CommandView> {
        let l: AttnV41StateLayout = Self::layout_of(c, role);
        let window: Seq<CommandView> = seq![
            CommandView::Memset { dst: self.window, value: 0, bytes: l.window as int },
        ];
        if role.is_kv_source {
            window + seq![
                CommandView::Memset { dst: (self.comp_state->0).0, value: 0, bytes: l.comp_state->0 as int },
                CommandView::Upload {
                    data: words_bytes(
                        Seq::new(
                            (at_least_1(role.ratio as int) * c.head_dim) as nat,
                            |i: int| NEG_INFINITY,
                        ),
                    ),
                    dst: (self.comp_state->0).1,
                },
                CommandView::Memset { dst: self.compress_kv->0, value: 0, bytes: l.compress_kv->0 as int },
                CommandView::Memset { dst: self.index_k->0, value: 0, bytes: l.index_k->0 as int },
            ]
        } else {
            window
        }
    }

    /// Puts fresh buffers, of the sizes of [`AttnV41LayerState::layout`], into
    /// the state of an empty sequence.
    pub fn new(q: &mut CommandQueue, c: &AttnV41Cfg, role: LayerRole, buffers: AttnV41LayerState) -> (r: Self)
        requires
            c.fits(),
            at_least_1(role.ratio as int) * c.head_dim * 4 <= usize::MAX,
            buffers.roomy(Self::layout_of(c, role)),
        ensures
            r == buffers,
            final(q)@ == old(q)@ + buffers.init_cmds(c, role),
    {
        let l: AttnV41StateLayout = Self::layout(c, role);
        q.push(Command::Memset { dst: buffers.window, value: 0, bytes: l.window });
        if role.is_kv_source {
            if let (Some((a, b)), Some(n)) = (buffers.comp_state, l.comp_state) {
                q.push(Command::Memset { dst: a, value: 0, bytes: n });
                let ratio: usize = if role.ratio < 1 { 1 } else { role.ratio };
                let neg: Vec<u32> = filled(NEG_INFINITY, ratio * c.head_dim);
                q.push(Command::Upload { data: f32_bytes(neg.as_slice()), dst: b });
            }
            if let (Some(p), Some(n)) = (buffers.compress_kv, l.compress_kv) {
                q.push(Command::Memset { dst: p, value: 0, bytes: n });
            }
            if let (Some(p), Some(n)) = (buffers.index_k, l.index_k) {
                q.push(Command::Memset { dst: p, value: 0, bytes: n });
            }
        }
        assert(q@ =~= old(q)@ + buffers.init_cmds(c, role));
        buffers
    }

    /// The buffers that the state is made of.
    pub open spec fn buffers(&self) -> Seq<DevicePtr> {
        seq![self.window] + match self.comp_state {
            Some((a, b)) => seq![a, b],
            None => seq![],
        } + match self.compress_kv {
            Some(p) => seq![p],
            None => seq![],
        } + match self.index_k {
            Some(p) => seq![p],
            None => seq![],
        }
    }

    /// Gives the buffers back, each once.
    pub fn free(self, q: &mut CommandQueue)
        ensures
            final(q)@ == old(q)@ + freed(self.buffers()),
    {
        q.push(Command::Free { p: self.window });
        if let Some((a, b)) = self.comp_state {
            q.push(Command::Free { p: a });
            q.push(Command::Free { p: b });
        }
        if let Some(p) = self.compress_kv {
            q.push(Command::Free { p });
        }
        if let Some(p) = self.index_k {
            q.push(Command::Free { p });
        }
        assert(q@ =~= old(q)@ + freed(self.buffers()));
    }
}

/// The bounds of [`AttnV41Cfg::fits`] on a layer's caches.
pub proof fn lemma_state_fits(c: &AttnV41Cfg, role: LayerRole)
    requires
        c.fits(),
    ensures
        ({
            let ratio: int = at_least_1(role.ratio as int);
            let groups: int = at_least_1(c.max_seq as int / ratio);
            &&& groups <= at_least_1(c.max_seq as int)
            &&& groups * c.head_dim <= groups * c.head_dim * 2 <= usize::MAX
            &&& groups * c.index_hd <= groups * c.index_hd * 2 <= usize::MAX
            &&& 0 <= c.window * c.head_dim
            &&& 0 <= ratio * c.head_dim
        }),
{
    let ratio: int = at_least_1(role.ratio as int);
    let groups: int = at_least_1(c.max_seq as int / ratio);
    let seq: int = at_least_1(c.max_seq as int);
    assert(c.max_seq as int / ratio <= c.max_seq) by (nonlinear_arith)
        requires
            ratio >= 1,
            c.max_seq >= 0,
    ;
    lemma_mul_le(groups, seq, c.head_dim as int);
    lemma_mul_le(groups, seq, c.index_hd as int);
    lemma_mul_le(0, groups, c.head_dim as int);
    lemma_mul_le(0, groups, c.index_hd as int);
    lemma_mul_le(0, c.window as int, c.head_dim as int);
    lemma_mul_le(0, ratio, c.head_dim as int);
}

/// What source layers publish for the layers below them.
#[derive(Clone, Debug, PartialEq, Eq)]
pub struct SharedV41 {
    /// the current kv source's latent cache and how many groups it holds
    pub compress_kv: Option<DevicePtr>,
    pub compress_len: usize,
    /// the current kv source's index-key cache
    pub index_k: Option<DevicePtr>,
    /// `[queries][topk]`, offset for the window rows, -1 = absent
    pub topk_idxs: Vec<i32>,
    pub topk: usize,
    /// `[queries][cand_width]`
    pub candidates: Vec<bool>,
    pub cand_width: usize,
}

impl Default for SharedV41 {
    fn default() -> (r: Self)
        ensures
            r.compress_kv is None,
            r.compress_len == 0,
            r.index_k is None,
            r.topk_idxs@.len() == 0,
            r.topk == 0,
            r.candidates@.len() == 0,
            r.cand_width == 0,
    {
        SharedV41 {
            compress_kv: None,
            compress_len: 0,
            index_k: None,
            topk_idxs: Vec::new(),
            topk: 0,
            candidates: Vec::new(),
            cand_width: 0,
        }
    }
}

/// The attention runtime: RoPE tables and workspaces for up to `max_tokens`
/// positions per call.
#[derive(Clone, Copy, Debug)]
pub struct AttnV41 {
    pub cfg: AttnV41Cfg,
    pub buf: AttnV41Buffers,
    /// bit pattern of `head_dim ^ -1/2`
    pub attn_scale: u32,
    /// bit pattern of `index_hd ^ -1/2 * index_heads ^ -1/2`
    pub index_scale: u32,
}

impl AttnV41 {
    /// The runtime is usable: its products are machine integers, and its
    /// workspaces have the room of the layout.
    pub open spec fn wf(&self) -> bool {
        &&& self.cfg.fits()
        &&& self.cfg.groups > 0
        &&& self.buf.roomy(self.cfg.layout_of())
    }
}

impl AttnV41LayerState {
    /// What is given back of a state: the ring, both parts of the partial group,
    /// the latent cache and the index keys, each of them once.
    pub proof fn lemma_state_is_given_back(&self, p: DevicePtr)
        ensures
            self.buffers().contains(p) <==> {
                ||| p == self.window
                ||| self.comp_state matches Some(g) && (p == g.0 || p == g.1)
                ||| self.compress_kv == Some(p)
                ||| self.index_k == Some(p)
            },
            self.buffers().len() == 1 + (if self.comp_state is Some {
                2int
            } else {
                0
            }) + (if self.compress_kv is Some {
                1int
            } else {
                0
            }) + (if self.index_k is Some {
                1int
            } else {
                0
            }),
    {
        let all: Seq<DevicePtr> = self.buffers();
        let k: int = if self.comp_state is Some {
            3
        } else {
            1
        };
        assert(all[0] == self.window);
        if let Some(g) = self.comp_state {
            assert(all[1] == g.0 && all[2] == g.1);
        }
        if let Some(c) = self.compress_kv {
            assert(all[k] == c);
            if let Some(i) = self.index_k {
                assert(all[k + 1] == i);
            }
        } else if let Some(i) = self.index_k {
            assert(all[k] == i);
        }
        if all.contains(p) {
            let j: int = choose|j: int| 0 <= j < all.len() && all[j] == p;
            assert(j == 0 || j == 1 || j == 2 || j == 3 || j == 4);
        }
    }
}

} // verus!
