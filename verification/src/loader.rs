//! How a DeepSeek-V4.1 Flash model is put together from its tensors.
//!
//! [`DeepSeekV41WeightLoader::check_start`] and
//! [`DeepSeekV41WeightLoader::load_layers`] check the model and derive the
//! geometry and every layer's role. [`layer_requests`] lists the tensors of a
//! layer in the order in which they are taken, and [`assemble_layer`] makes the
//! layer of them.

use crate::attn_cfg::{
    AttnV41Cfg, AttnV41LayerWeights, CompressorWeightsGpu, IndexerWeightsGpu, LayerRole,
};
use crate::device::{at_least_16, padded_16, DevicePtr};
use crate::float_bits::{float_gt, greater};
use crate::loader_laws::{is_named, lemma_layer_is_named};
use crate::moe::{MoeV41Cfg, MoeV41LayerWeights, ResidentMat};
use crate::names::{layer_name, layer_name_of};
use crate::rows::{copied, lemma_mul_le, product_fits};
use crate::store::{LoadError, LoadErrorView, WeightStore};
use vstd::prelude::*;

verus! {

/// The layer that publishes candidates, where nothing else is said.
pub const DEFAULT_CANDIDATE_SOURCE: usize = 20;

/// How many candidate blocks it picks, where nothing else is said.
pub const DEFAULT_CANDIDATE_TOPK_BLOCKS: usize = 2048;

/// How many positions a candidate block has, where nothing else is said.
pub const DEFAULT_CANDIDATE_BLOCK: usize = 8;

/// The YaRN factor, 16, where nothing else is said.
pub const DEFAULT_YARN_FACTOR: u32 = 0x4180_0000;

/// The length that the rotation was trained on, where nothing else is said.
pub const DEFAULT_ORIGINAL_SEQ: usize = 65536;

/// The fast YaRN bound, 32, where nothing else is said.
pub const DEFAULT_BETA_FAST: u32 = 0x4200_0000;

/// The slow YaRN bound, 1, where nothing else is said.
pub const DEFAULT_BETA_SLOW: u32 = 0x3F80_0000;

/// The router's temperature, 1.
pub const GATE_TEMP: u32 = 0x3F80_0000;

/// The number that digits write.
pub open spec fn digits_value(b: Seq<u8>) -> int
    decreases b.len(),
{
    if b.len() == 0 {
        0
    } else {
        digits_value(b.drop_last()) * 10 + (b.last() - 48)
    }
}

/// Decimal digits only.
pub open spec fn all_digits(b: Seq<u8>) -> bool {
    forall|i: int| 0 <= i < b.len() ==> 48 <= #[trigger] b[i] <= 57
}

/// A text without a plus sign in front.
pub open spec fn unsigned_part(b: Seq<u8>) -> Seq<u8> {
    if b.len() > 0 && b[0] == 43 {
        b.skip(1)
    } else {
        b
    }
}

/// A text is a number: digits, at least one, perhaps with a plus sign in front,
/// and not too large.
pub open spec fn is_number(b: Seq<u8>) -> bool {
    &&& unsigned_part(b).len() > 0
    &&& all_digits(unsigned_part(b))
    &&& digits_value(unsigned_part(b)) <= usize::MAX
}

/// The number that a setting gives, or the default.
pub open spec fn setting_of(value: Option<Seq<u8>>, default: usize) -> int {
    match value {
        Some(b) => if is_number(b) {
            digits_value(unsigned_part(b))
        } else {
            default as int
        },
        None => default as int,
    }
}

/// What a setting's text is, if it is set.
pub open spec fn text_of(value: Option<Vec<u8>>) -> Option<Seq<u8>> {
    match value {
        Some(v) => Some(v@),
        None => None,
    }
}

/// The number that a setting gives, or the default where it is not set or no
/// number.
pub fn env_usize(value: &Option<Vec<u8>>, default: usize) -> (r: usize)
    ensures
        r == setting_of(text_of(*value), default),
{
    let b: &Vec<u8> = match value {
        Some(b) => b,
        None => {
            return default;
        },
    };
    let n: usize = b.len();
    let start: usize = if n > 0 && b[0] == 43 { 1 } else { 0 };
    let ghost d: Seq<u8> = unsigned_part(b@);
    assert(d =~= b@.skip(start as int));
    if start == n {
        return default;
    }
    let mut v: usize = 0;
    let mut too_large: bool = false;
    assert(d.take(0) =~= Seq::<u8>::empty());
    for i in start..n
        invariant
            n == b@.len(),
            start <= i,
            text_of(*value) == Some(b@),
            d == unsigned_part(b@),
            d == b@.skip(start as int),
            all_digits(d.take(i - start)),
            !too_large ==> v == digits_value(d.take(i - start)),
            too_large ==> digits_value(d.take(i - start)) > usize::MAX,
    {
        let x: u8 = b[i];
        proof {
            assert(d[i - start] == x);
            assert(d.take(i + 1 - start).drop_last() =~= d.take(i - start));
            assert(d.take(i + 1 - start).last() == x);
        }
        if x < 48 || x > 57 {
            assert(!all_digits(d)) by {
                assert(d[i - start] == x);
            }
            return default;
        }
        assert(all_digits(d.take(i + 1 - start))) by {
            assert forall|j: int| 0 <= j < i + 1 - start implies 48 <= #[trigger] d.take(i + 1 - start)[j] <= 57 by {
                if j < i - start {
                    assert(d.take(i - start)[j] == d.take(i + 1 - start)[j]);
                }
            }
        }
        if !too_large {
            let digit: usize = (x - 48) as usize;
            match v.checked_mul(10) {
                Some(p) => match p.checked_add(digit) {
                    Some(s) => {
                        v = s;
                    },
                    None => {
                        too_large = true;
                    },
                },
                None => {
                    too_large = true;
                },
            }
        }
    }
    assert(d.take(n - start) =~= d);
    if too_large {
        default
    } else {
        v
    }
}

/// What the loader reads of a model's configuration. Floats are bit patterns.
#[derive(Debug)]
pub struct ModelConfig {
    pub num_hidden_layers: usize,
    pub hidden_size: usize,
    pub hc_mult: usize,
    pub hc_sinkhorn_iters: usize,
    pub head_dim: usize,
    pub num_attention_heads: usize,
    pub num_experts: usize,
    pub num_experts_per_tok: usize,
    pub moe_intermediate_size: usize,
    pub norm_topk_prob: bool,
    pub routed_scaling_factor: u32,
    pub swiglu_limit: u32,
    pub max_position_embeddings: usize,
    pub compress_ratios: Vec<usize>,
    pub candidate_source_layer_id: Option<usize>,
    pub candidate_topk_blocks: usize,
    pub candidate_block_size: usize,
    pub rotary_dim: usize,
    pub q_lora_rank: usize,
    pub o_lora_rank: usize,
    pub o_groups: usize,
    pub sliding_window: usize,
    pub rms_norm_eps: u32,
    pub index_n_heads: usize,
    pub index_head_dim: usize,
    pub index_topk: usize,
    pub rope_theta: u32,
    pub compress_rope_theta: u32,
    pub yarn_factor: u32,
    pub yarn_original_max_position_embeddings: usize,
    pub yarn_beta_fast: u32,
    pub yarn_beta_slow: u32,
}

/// The settings of the environment, where they are set.
#[derive(Debug)]
pub struct LoadEnv {
    /// `ATLAS_DS41_MAX_SEQ`
    pub max_seq: Option<Vec<u8>>,
    /// `ATLAS_DS41_MAX_TOKENS`
    pub max_tokens: Option<Vec<u8>>,
    /// `ATLAS_DS41_EXPERT_CACHE_GIB`
    pub cache_gib: Option<Vec<u8>>,
    /// `ATLAS_DS41_READER_THREADS`
    pub reader_threads: Option<Vec<u8>>,
    /// `ATLAS_DS41_CANDIDATE_SOURCE`
    pub candidate_source: Option<Vec<u8>>,
}

/// The sizes in bytes of what all layers share.
#[derive(Clone, Copy, Debug, PartialEq, Eq, Structural)]
pub struct RuntimeLayout {
    pub pre_prev: usize,
    pub mixes_s: usize,
    pub pre_a: usize,
    pub pre_f: usize,
    pub post_s: usize,
    pub comb_s: usize,
    pub attn_in: usize,
}

/// What the loader derives of a model before it takes the layers' tensors.
#[derive(Debug)]
pub struct LoadPlan {
    pub attn: AttnV41Cfg,
    pub moe: MoeV41Cfg,
    /// one role per layer
    pub roles: Vec<LayerRole>,
    pub cand_src: usize,
    /// the room of the expert cache, in bytes
    pub cache_bytes: usize,
    pub reader_threads: usize,
    pub sinkhorn_iters: usize,
    pub runtime: RuntimeLayout,
}

/// The smaller of two.
pub open spec fn smaller_of(a: int, b: int) -> int {
    if a < b {
        a
    } else {
        b
    }
}

/// How many positions a sequence can have.
pub open spec fn max_seq_of(c: &ModelConfig, env: &LoadEnv) -> int {
    smaller_of(
        setting_of(text_of(env.max_seq), 8192),
        if c.max_position_embeddings < 1 {
            1
        } else {
            c.max_position_embeddings as int
        },
    )
}

/// How many tokens a call can have.
pub open spec fn max_tokens_of(c: &ModelConfig, env: &LoadEnv) -> int {
    smaller_of(setting_of(text_of(env.max_tokens), 2048), max_seq_of(c, env))
}

/// The layer that publishes candidates: the configuration's, else the
/// environment's, else the default.
pub open spec fn candidate_source_of(c: &ModelConfig, env: &LoadEnv) -> int {
    match c.candidate_source_layer_id {
        Some(l) => l as int,
        None => setting_of(text_of(env.candidate_source), DEFAULT_CANDIDATE_SOURCE),
    }
}

/// A count, or its default where it is zero.
pub open spec fn or_default(x: usize, default: usize) -> usize {
    if x > 0 {
        x
    } else {
        default
    }
}

/// A float, or its default where it is not positive.
pub open spec fn positive_or(x: u32, default: u32) -> u32 {
    if float_gt(x, 0) {
        x
    } else {
        default
    }
}

/// The attention layers' geometry.
pub open spec fn attn_cfg_of(c: &ModelConfig, env: &LoadEnv) -> AttnV41Cfg {
    AttnV41Cfg {
        dim: c.hidden_size,
        n_heads: c.num_attention_heads,
        head_dim: c.head_dim,
        rope_dim: c.rotary_dim,
        q_rank: c.q_lora_rank,
        o_rank: c.o_lora_rank,
        groups: or_default(c.o_groups, 1),
        window: c.sliding_window,
        eps: c.rms_norm_eps,
        index_heads: c.index_n_heads,
        index_hd: c.index_head_dim,
        index_topk: c.index_topk,
        cand_topk_blocks: or_default(c.candidate_topk_blocks, DEFAULT_CANDIDATE_TOPK_BLOCKS),
        cand_block: or_default(c.candidate_block_size, DEFAULT_CANDIDATE_BLOCK),
        max_seq: max_seq_of(c, env) as usize,
        max_tokens: max_tokens_of(c, env) as usize,
        rope_theta: c.rope_theta,
        compress_rope_theta: c.compress_rope_theta,
        rope_factor: positive_or(c.yarn_factor, DEFAULT_YARN_FACTOR),
        orig_seq: or_default(c.yarn_original_max_position_embeddings, DEFAULT_ORIGINAL_SEQ),
        beta_fast: positive_or(c.yarn_beta_fast, DEFAULT_BETA_FAST),
        beta_slow: positive_or(c.yarn_beta_slow, DEFAULT_BETA_SLOW),
    }
}

/// The experts' geometry.
pub open spec fn moe_cfg_of(c: &ModelConfig, env: &LoadEnv) -> MoeV41Cfg {
    MoeV41Cfg {
        dim: c.hidden_size,
        inter: c.moe_intermediate_size,
        n_routed: c.num_experts,
        topk: c.num_experts_per_tok,
        gate_temp: GATE_TEMP,
        norm_topk_prob: c.norm_topk_prob,
        route_scale: c.routed_scaling_factor,
        swiglu_limit: c.swiglu_limit,
        max_tokens: max_tokens_of(c, env) as usize,
    }
}

/// A layer writes compressed rows: it has compressor tensors.
pub open spec fn is_kv_source(store: &WeightStore, l: int) -> bool {
    store.tensor(layer_name_of(l, "compressor.wkv.weight"@)) is Some
}

/// A layer selects compressed positions: it has indexer tensors.
pub open spec fn is_index_source(store: &WeightStore, l: int) -> bool {
    store.tensor(layer_name_of(l, "indexer.wq_b.weight"@)) is Some
}

/// A layer's role.
pub open spec fn role_of(store: &WeightStore, c: &ModelConfig, env: &LoadEnv, l: int) -> LayerRole {
    LayerRole {
        ratio: c.compress_ratios@[l],
        is_kv_source: is_kv_source(store, l),
        is_index_source: is_index_source(store, l),
        is_candidate_source: candidate_source_of(c, env) == l,
        uses_candidates: candidate_source_of(c, env) < l,
    }
}

/// The sizes of what all layers share.
pub open spec fn runtime_layout_of(max_tokens: int, hc: int, dim: int) -> RuntimeLayout {
    RuntimeLayout {
        pre_prev: at_least_16(max_tokens * hc * 4) as usize,
        mixes_s: at_least_16(max_tokens * (2 + hc) * hc * 4) as usize,
        pre_a: at_least_16(max_tokens * hc * 4) as usize,
        pre_f: at_least_16(max_tokens * hc * 4) as usize,
        post_s: at_least_16(max_tokens * hc * 4) as usize,
        comb_s: at_least_16(max_tokens * hc * hc * 4) as usize,
        attn_in: (max_tokens * dim * 2) as usize,
    }
}

/// The number of streams is supported, and the sizes of what all layers share
/// are machine integers.
pub open spec fn load_in_range(c: &ModelConfig, env: &LoadEnv) -> bool {
    &&& 1 <= c.hc_mult <= 4
    &&& max_tokens_of(c, env) * (2 + c.hc_mult) * c.hc_mult * 4 <= usize::MAX
    &&& max_tokens_of(c, env) * c.hidden_size * 2 <= usize::MAX
}

/// The sizes of the layers' tensors are machine integers.
pub open spec fn tensors_in_range(c: &ModelConfig) -> bool {
    &&& 1 <= c.hc_mult <= 4
    &&& mix_width(c.hc_mult as int) * c.hc_mult * c.hidden_size <= usize::MAX
    &&& c.head_dim * c.hidden_size <= usize::MAX
}

/// Why a model is refused, once its expert stacks are open.
pub open spec fn plan_error(store: &WeightStore, c: &ModelConfig, stacked_experts: usize) -> Option<LoadErrorView> {
    let n: int = c.num_hidden_layers as int;
    if stacked_experts != c.num_experts {
        Some(LoadErrorView::Experts { held: stacked_experts, expected: c.num_experts })
    } else if c.compress_ratios@.len() < n {
        Some(LoadErrorView::Ratios { held: c.compress_ratios@.len() as usize, layers: c.num_hidden_layers })
    } else if !(exists|l: int| 0 <= l < n && #[trigger] is_kv_source(store, l)) || !(exists|l: int|
        0 <= l < n && #[trigger] is_index_source(store, l)) {
        Some(LoadErrorView::NoSources)
    } else {
        None
    }
}

fn sequence_limits(c: &ModelConfig, env: &LoadEnv) -> (r: (usize, usize))
    ensures
        r.0 == max_seq_of(c, env),
        r.1 == max_tokens_of(c, env),
{
    let limit: usize = pick_count(c.max_position_embeddings, 1);
    let wanted_seq: usize = env_usize(&env.max_seq, 8192);
    let max_seq: usize = if wanted_seq < limit { wanted_seq } else { limit };
    let wanted_tokens: usize = env_usize(&env.max_tokens, 2048);
    let max_tokens: usize = if wanted_tokens < max_seq { wanted_tokens } else { max_seq };
    (max_seq, max_tokens)
}

/// Whether the sizes of what all layers share are machine integers.
pub fn load_fits(c: &ModelConfig, env: &LoadEnv) -> (r: bool)
    ensures
        r == load_in_range(c, env),
{
    if c.hc_mult < 1 || c.hc_mult > 4 {
        return false;
    }
    let (_max_seq, max_tokens) = sequence_limits(c, env);
    product_fits(max_tokens, 2 + c.hc_mult, c.hc_mult, 4) && product_fits(max_tokens, c.hidden_size, 2, 1)
}

/// Whether the sizes of the layers' tensors are machine integers.
pub fn tensors_fit(c: &ModelConfig) -> (r: bool)
    ensures
        r == tensors_in_range(c),
{
    if c.hc_mult < 1 || c.hc_mult > 4 {
        return false;
    }
    product_fits(2 + c.hc_mult, c.hc_mult, c.hc_mult, c.hidden_size) && product_fits(c.head_dim, c.hidden_size, 1, 1)
}

fn pick_count(x: usize, default: usize) -> (r: usize)
    ensures
        r == or_default(x, default),
{
    if x > 0 {
        x
    } else {
        default
    }
}

fn pick_float(x: u32, default: u32) -> (r: u32)
    ensures
        r == positive_or(x, default),
{
    if greater(x, 0) {
        x
    } else {
        default
    }
}

fn runtime_layout(max_tokens: usize, hc: usize, dim: usize) -> (r: RuntimeLayout)
    requires
        1 <= hc <= 4,
        max_tokens * (2 + hc) * hc * 4 <= usize::MAX,
        max_tokens * dim * 2 <= usize::MAX,
    ensures
        r == runtime_layout_of(max_tokens as int, hc as int, dim as int),
{
    proof {
        let m: int = max_tokens as int;
        let h: int = hc as int;
        lemma_mul_le(0, m, h);
        lemma_mul_le(0, m, dim as int);
        lemma_mul_le(h, 2 + h, m);
        lemma_mul_le(0, m, 2 + h);
        lemma_mul_le(m * h, m * (2 + h), h);
        lemma_mul_le(1, h, m * (2 + h));
        lemma_mul_le(0, m * h, h);
    }
    RuntimeLayout {
        pre_prev: padded_16(max_tokens * hc * 4),
        mixes_s: padded_16(max_tokens * (2 + hc) * hc * 4),
        pre_a: padded_16(max_tokens * hc * 4),
        pre_f: padded_16(max_tokens * hc * 4),
        post_s: padded_16(max_tokens * hc * 4),
        comb_s: padded_16(max_tokens * hc * hc * 4),
        attn_in: max_tokens * dim * 2,
    }
}

/// The loader.
pub struct DeepSeekV41WeightLoader;

impl DeepSeekV41WeightLoader {
    /// Tensor parallelism is not supported.
    pub fn supports_tp(&self) -> (r: bool)
        ensures
            !r,
    {
        false
    }

    /// The name of the embedding.
    pub fn load_embedding(&self) -> (r: &'static str)
        ensures
            r@ == "model.embed_tokens.weight"@,
    {
        "model.embed_tokens.weight"
    }

    /// The name of the last norm.
    pub fn load_final_norm(&self) -> (r: &'static str)
        ensures
            r@ == "model.norm.weight"@,
    {
        "model.norm.weight"
    }

    /// The name of the output head.
    pub fn load_lm_head(&self) -> (r: &'static str)
        ensures
            r@ == "lm_head.weight"@,
    {
        "lm_head.weight"
    }

    /// There are no weights for predicting further tokens.
    pub fn load_mtp_weights(&self) -> (r: Option<LayerWeights>)
        ensures
            r is None,
    {
        None
    }

    /// The kernels that every layer launches besides those of its attention and
    /// experts, by module and function. Norm weights are plain, so norms go
    /// through the kernel that does not add one to them.
    pub fn layer_kernels(&self) -> (r: Vec<(&'static str, &'static str)>)
        ensures
            r@.map_values(|k: (&'static str, &'static str)| (k.0@, k.1@)) == seq![
                ("hyper_connection"@, "hc_expand"@),
                ("hyper_connection"@, "hc_post"@),
                ("hc_v41"@, "hc_v41_mixes_dot"@),
                ("hc_v41"@, "hc_v41_mixes_finish"@),
                ("hc_v41"@, "hc_v41_collapse"@),
                ("rms_norm_vanilla"@, "rms_norm_vanilla"@),
            ],
    {
        let r: Vec<(&'static str, &'static str)> = vec![
            ("hyper_connection", "hc_expand"),
            ("hyper_connection", "hc_post"),
            ("hc_v41", "hc_v41_mixes_dot"),
            ("hc_v41", "hc_v41_mixes_finish"),
            ("hc_v41", "hc_v41_collapse"),
            ("rms_norm_vanilla", "rms_norm_vanilla"),
        ];
        assert(r@.map_values(|k: (&'static str, &'static str)| (k.0@, k.1@)) =~= seq![
            ("hyper_connection"@, "hc_expand"@),
            ("hyper_connection"@, "hc_post"@),
            ("hc_v41"@, "hc_v41_mixes_dot"@),
            ("hc_v41"@, "hc_v41_mixes_finish"@),
            ("hc_v41"@, "hc_v41_collapse"@),
            ("rms_norm_vanilla"@, "rms_norm_vanilla"@),
        ]);
        r
    }

    /// What can be refused before the expert stacks are opened: the number of
    /// streams, and experts that were not left on disk.
    pub fn check_start(&self, store: &WeightStore, c: &ModelConfig) -> (r: Result<(), LoadError>)
        ensures
            !(1 <= c.hc_mult <= 4) ==> r is Err && (r->Err_0)@ == (LoadErrorView::HcMult { hc_mult: c.hc_mult }),
            1 <= c.hc_mult <= 4 && !store.is_deferred(layer_name_of(0, "ffn.experts_stack.gate"@)) ==> r is Err && (
            r->Err_0)@ == LoadErrorView::NotDeferred,
            1 <= c.hc_mult <= 4 && store.is_deferred(layer_name_of(0, "ffn.experts_stack.gate"@)) ==> r is Ok,
    {
        if c.hc_mult < 1 || c.hc_mult > 4 {
            return Err(LoadError::HcMult { hc_mult: c.hc_mult });
        }
        let anchor: String = layer_name(0, "ffn.experts_stack.gate");
        if !store.leaves_on_disk(&anchor) {
            return Err(LoadError::NotDeferred);
        }
        Ok(())
    }

    /// The geometry and the roles of a model whose expert stacks hold
    /// `stacked_experts` experts.
    pub fn load_layers(&self, store: &WeightStore, c: &ModelConfig, env: &LoadEnv, stacked_experts: usize) -> (r: Result<
        LoadPlan,
        LoadError,
    >)
        requires
            load_in_range(c, env),
        ensures
            match plan_error(store, c, stacked_experts) {
                Some(e) => r is Err && (r->Err_0)@ == e,
                None => {
                    let n: int = c.num_hidden_layers as int;
                    &&& r matches Ok(p)
                    &&& p.attn == attn_cfg_of(c, env)
                    &&& p.moe == moe_cfg_of(c, env)
                    &&& p.roles@ == Seq::new(n as nat, |l: int| role_of(store, c, env, l))
                    &&& p.cand_src == candidate_source_of(c, env)
                    &&& p.cache_bytes == (setting_of(text_of(env.cache_gib), 88) * 0x4000_0000) % (usize::MAX + 1)
                    &&& p.reader_threads == setting_of(text_of(env.reader_threads), 8)
                    &&& p.sinkhorn_iters == or_default(c.hc_sinkhorn_iters, 1)
                    &&& p.runtime == runtime_layout_of(
                        max_tokens_of(c, env),
                        c.hc_mult as int,
                        c.hidden_size as int,
                    )
                },
            },
    {
        if stacked_experts != c.num_experts {
            return Err(LoadError::Experts { held: stacked_experts, expected: c.num_experts });
        }
        let n: usize = c.num_hidden_layers;
        let held: usize = c.compress_ratios.len();
        if held < n {
            return Err(LoadError::Ratios { held, layers: n });
        }
        let (max_seq, max_tokens) = sequence_limits(c, env);
        let cache_gib: usize = env_usize(&env.cache_gib, 88);
        let reader_threads: usize = env_usize(&env.reader_threads, 8);
        let cand_src: usize = match c.candidate_source_layer_id {
            Some(l) => l,
            None => env_usize(&env.candidate_source, DEFAULT_CANDIDATE_SOURCE),
        };
        let mut roles: Vec<LayerRole> = Vec::with_capacity(n);
        let mut any_kv: bool = false;
        let mut any_index: bool = false;
        let ghost want: Seq<LayerRole> = Seq::new(n as nat, |l: int| role_of(store, c, env, l));
        for l in 0..n
            invariant
                n == c.num_hidden_layers,
                n <= c.compress_ratios@.len(),
                cand_src == candidate_source_of(c, env),
                want == Seq::new(n as nat, |l: int| role_of(store, c, env, l)),
                roles@ == want.take(l as int),
                any_kv <==> exists|k: int| 0 <= k < l && #[trigger] is_kv_source(store, k),
                any_index <==> exists|k: int| 0 <= k < l && #[trigger] is_index_source(store, k),
        {
            let kv: bool = store.contains(&layer_name(l, "compressor.wkv.weight"));
            let index: bool = store.contains(&layer_name(l, "indexer.wq_b.weight"));
            assert(kv == is_kv_source(store, l as int));
            assert(index == is_index_source(store, l as int));
            any_kv = any_kv || kv;
            any_index = any_index || index;
            roles.push(
                LayerRole {
                    ratio: c.compress_ratios[l],
                    is_kv_source: kv,
                    is_index_source: index,
                    is_candidate_source: cand_src == l,
                    uses_candidates: cand_src < l,
                },
            );
            assert(roles@ =~= want.take(l + 1));
        }
        assert(roles@ =~= want);
        if !any_kv || !any_index {
            return Err(LoadError::NoSources);
        }
        let attn: AttnV41Cfg = AttnV41Cfg {
            dim: c.hidden_size,
            n_heads: c.num_attention_heads,
            head_dim: c.head_dim,
            rope_dim: c.rotary_dim,
            q_rank: c.q_lora_rank,
            o_rank: c.o_lora_rank,
            groups: pick_count(c.o_groups, 1),
            window: c.sliding_window,
            eps: c.rms_norm_eps,
            index_heads: c.index_n_heads,
            index_hd: c.index_head_dim,
            index_topk: c.index_topk,
            cand_topk_blocks: pick_count(c.candidate_topk_blocks, DEFAULT_CANDIDATE_TOPK_BLOCKS),
            cand_block: pick_count(c.candidate_block_size, DEFAULT_CANDIDATE_BLOCK),
            max_seq,
            max_tokens,
            rope_theta: c.rope_theta,
            compress_rope_theta: c.compress_rope_theta,
            rope_factor: pick_float(c.yarn_factor, DEFAULT_YARN_FACTOR),
            orig_seq: pick_count(c.yarn_original_max_position_embeddings, DEFAULT_ORIGINAL_SEQ),
            beta_fast: pick_float(c.yarn_beta_fast, DEFAULT_BETA_FAST),
            beta_slow: pick_float(c.yarn_beta_slow, DEFAULT_BETA_SLOW),
        };
        let moe: MoeV41Cfg = MoeV41Cfg {
            dim: c.hidden_size,
            inter: c.moe_intermediate_size,
            n_routed: c.num_experts,
            topk: c.num_experts_per_tok,
            gate_temp: GATE_TEMP,
            norm_topk_prob: c.norm_topk_prob,
            route_scale: c.routed_scaling_factor,
            swiglu_limit: c.swiglu_limit,
            max_tokens,
        };
        Ok(
            LoadPlan {
                attn,
                moe,
                roles,
                cand_src,
                cache_bytes: cache_gib.wrapping_mul(0x4000_0000),
                reader_threads,
                sinkhorn_iters: pick_count(c.hc_sinkhorn_iters, 1),
                runtime: runtime_layout(max_tokens, c.hc_mult, c.hidden_size),
            },
        )
    }
}

/// How a tensor is taken.
#[derive(Clone, Copy, Debug, PartialEq, Eq, Structural)]
pub enum TensorKind {
    /// in place, in bf16
    Bf16,
    /// in place, in bf16 or in the blocks that the kernels read
    Resident,
    /// widened to f32 into a buffer of its own, of so many values
    F32 { expected: usize },
    /// widened to f32 on the host
    HostF32,
}

/// One tensor to be taken.
#[derive(Clone, Debug, PartialEq, Eq)]
pub struct TensorRequest {
    pub name: String,
    pub kind: TensorKind,
}

/// What requests say.
pub open spec fn asked(requests: Seq<TensorRequest>) -> Seq<(Seq<char>, TensorKind)> {
    requests.map_values(|r: TensorRequest| (r.name@, r.kind))
}

/// Tensors of layer `l`, by their full names.
pub open spec fn of_layer(l: int, tensors: Seq<(Seq<char>, TensorKind)>) -> Seq<(Seq<char>, TensorKind)> {
    tensors.map_values(|t: (Seq<char>, TensorKind)| (layer_name_of(l, t.0), t.1))
}

/// The compressor's tensors: of a kv source. Above ratio 1 the projections are
/// f32.
pub open spec fn compressor_tensors(c: &ModelConfig, role: LayerRole) -> Seq<(Seq<char>, TensorKind)> {
    let wide: TensorKind = TensorKind::F32 { expected: (c.head_dim * c.hidden_size) as usize };
    if !role.is_kv_source {
        seq![]
    } else if role.ratio > 1 {
        seq![
            ("compressor.norm.weight"@, TensorKind::F32 { expected: c.head_dim }),
            ("compressor.wkv.weight"@, wide),
            ("compressor.wgate.weight"@, wide),
        ]
    } else {
        seq![
            ("compressor.norm.weight"@, TensorKind::F32 { expected: c.head_dim }),
            ("compressor.wkv.weight"@, TensorKind::Bf16),
        ]
    }
}

/// The indexer's tensors: of an index source; those of the keys only of a kv
/// source.
pub open spec fn indexer_tensors(c: &ModelConfig, role: LayerRole) -> Seq<(Seq<char>, TensorKind)> {
    if !role.is_index_source {
        seq![]
    } else if role.is_kv_source {
        seq![
            ("indexer.wq_b.weight"@, TensorKind::Bf16),
            ("indexer.proj.weight"@, TensorKind::Bf16),
            ("indexer.wk.weight"@, TensorKind::Bf16),
            ("indexer.k_norm.weight"@, TensorKind::F32 { expected: c.index_head_dim }),
        ]
    } else {
        seq![
            ("indexer.wq_b.weight"@, TensorKind::Bf16),
            ("indexer.proj.weight"@, TensorKind::Bf16),
        ]
    }
}

/// How many mixing weights a site has per stream value.
pub open spec fn mix_width(hc: int) -> int {
    (2 + hc) * hc
}

/// The tensors of one mixing site.
pub open spec fn hc_site_tensors(
    c: &ModelConfig,
    fn_name: Seq<char>,
    base_name: Seq<char>,
    scale_name: Seq<char>,
) -> Seq<(Seq<char>, TensorKind)> {
    let mix: int = mix_width(c.hc_mult as int);
    seq![
        (fn_name, TensorKind::F32 { expected: (mix * c.hc_mult * c.hidden_size) as usize }),
        (base_name, TensorKind::F32 { expected: mix as usize }),
        (scale_name, TensorKind::F32 { expected: 3 }),
    ]
}

/// The tensors that every layer has: attention, router and shared expert. The
/// projections of attention and shared expert are taken in bf16 or in blocks.
pub open spec fn common_tensors(c: &ModelConfig) -> Seq<(Seq<char>, TensorKind)> {
    seq![
        ("attn.attn_sink"@, TensorKind::F32 { expected: c.num_attention_heads }),
        ("attn.wq_a.weight"@, TensorKind::Resident),
        ("attn.q_norm.weight"@, TensorKind::F32 { expected: c.q_lora_rank }),
        ("attn.wq_b.weight"@, TensorKind::Resident),
        ("attn.wkv.weight"@, TensorKind::Resident),
        ("attn.kv_norm.weight"@, TensorKind::F32 { expected: c.head_dim }),
        ("attn.wo_a.weight"@, TensorKind::Resident),
        ("attn.wo_b.weight"@, TensorKind::Resident),
        ("ffn.gate.e_score_correction_bias"@, TensorKind::HostF32),
        ("ffn.gate.weight"@, TensorKind::Bf16),
        ("ffn.shared_experts.w1"@, TensorKind::Resident),
        ("ffn.shared_experts.w2"@, TensorKind::Resident),
        ("ffn.shared_experts.w3"@, TensorKind::Resident),
    ]
}

/// The norms in front of attention and experts.
pub open spec fn norm_tensors() -> Seq<(Seq<char>, TensorKind)> {
    seq![("attn_norm.weight"@, TensorKind::Bf16), ("ffn_norm.weight"@, TensorKind::Bf16)]
}

/// All tensors of a layer, in the order in which they are taken.
pub open spec fn layer_tensors(c: &ModelConfig, role: LayerRole) -> Seq<(Seq<char>, TensorKind)> {
    compressor_tensors(c, role) + indexer_tensors(c, role) + common_tensors(c) + hc_site_tensors(
        c,
        "hc_attn_fn"@,
        "hc_attn_base"@,
        "hc_attn_scale"@,
    ) + hc_site_tensors(c, "hc_ffn_fn"@, "hc_ffn_base"@, "hc_ffn_scale"@) + norm_tensors()
}

fn ask(v: &mut Vec<TensorRequest>, l: usize, tensor: &str, kind: TensorKind)
    ensures
        asked(final(v)@) == asked(old(v)@).push((layer_name_of(l as int, tensor@), kind)),
{
    v.push(TensorRequest { name: layer_name(l, tensor), kind });
    assert(asked(v@) =~= asked(old(v)@).push((layer_name_of(l as int, tensor@), kind)));
}

fn ask_compressor(v: &mut Vec<TensorRequest>, c: &ModelConfig, role: LayerRole, l: usize)
    requires
        c.head_dim * c.hidden_size <= usize::MAX,
    ensures
        asked(final(v)@) == asked(old(v)@) + of_layer(l as int, compressor_tensors(c, role)),
{
    if role.is_kv_source {
        ask(v, l, "compressor.norm.weight", TensorKind::F32 { expected: c.head_dim });
        if role.ratio > 1 {
            let wide: TensorKind = TensorKind::F32 { expected: c.head_dim * c.hidden_size };
            ask(v, l, "compressor.wkv.weight", wide);
            ask(v, l, "compressor.wgate.weight", wide);
        } else {
            ask(v, l, "compressor.wkv.weight", TensorKind::Bf16);
        }
    }
    assert(asked(v@) =~= asked(old(v)@) + of_layer(l as int, compressor_tensors(c, role)));
}

fn ask_indexer(v: &mut Vec<TensorRequest>, c: &ModelConfig, role: LayerRole, l: usize)
    ensures
        asked(final(v)@) == asked(old(v)@) + of_layer(l as int, indexer_tensors(c, role)),
{
    if role.is_index_source {
        ask(v, l, "indexer.wq_b.weight", TensorKind::Bf16);
        ask(v, l, "indexer.proj.weight", TensorKind::Bf16);
        if role.is_kv_source {
            ask(v, l, "indexer.wk.weight", TensorKind::Bf16);
            ask(v, l, "indexer.k_norm.weight", TensorKind::F32 { expected: c.index_head_dim });
        }
    }
    assert(asked(v@) =~= asked(old(v)@) + of_layer(l as int, indexer_tensors(c, role)));
}

fn ask_common(v: &mut Vec<TensorRequest>, c: &ModelConfig, l: usize)
    ensures
        asked(final(v)@) == asked(old(v)@) + of_layer(l as int, common_tensors(c)),
{
    ask(v, l, "attn.attn_sink", TensorKind::F32 { expected: c.num_attention_heads });
    ask(v, l, "attn.wq_a.weight", TensorKind::Resident);
    ask(v, l, "attn.q_norm.weight", TensorKind::F32 { expected: c.q_lora_rank });
    ask(v, l, "attn.wq_b.weight", TensorKind::Resident);
    ask(v, l, "attn.wkv.weight", TensorKind::Resident);
    ask(v, l, "attn.kv_norm.weight", TensorKind::F32 { expected: c.head_dim });
    ask(v, l, "attn.wo_a.weight", TensorKind::Resident);
    ask(v, l, "attn.wo_b.weight", TensorKind::Resident);
    ask(v, l, "ffn.gate.e_score_correction_bias", TensorKind::HostF32);
    ask(v, l, "ffn.gate.weight", TensorKind::Bf16);
    ask(v, l, "ffn.shared_experts.w1", TensorKind::Resident);
    ask(v, l, "ffn.shared_experts.w2", TensorKind::Resident);
    ask(v, l, "ffn.shared_experts.w3", TensorKind::Resident);
    assert(asked(v@) =~= asked(old(v)@) + of_layer(l as int, common_tensors(c)));
}

/// Asks for the tensors of one mixing site.
fn hc_site(v: &mut Vec<TensorRequest>, c: &ModelConfig, l: usize, fn_name: &str, base_name: &str, scale_name: &str)
    requires
        1 <= c.hc_mult <= 4,
        mix_width(c.hc_mult as int) * c.hc_mult * c.hidden_size <= usize::MAX,
    ensures
        asked(final(v)@) == asked(old(v)@) + of_layer(
            l as int,
            hc_site_tensors(c, fn_name@, base_name@, scale_name@),
        ),
{
    let hc: usize = c.hc_mult;
    proof {
        assert((2 + hc) * hc <= 24 && (2 + hc) * hc * hc <= 96) by (nonlinear_arith)
            requires
                1 <= hc <= 4,
        ;
        lemma_mul_le(0, (2 + hc) * hc * hc, c.hidden_size as int);
    }
    let mix: usize = (2 + hc) * hc;
    ask(v, l, fn_name, TensorKind::F32 { expected: mix * hc * c.hidden_size });
    ask(v, l, base_name, TensorKind::F32 { expected: mix });
    ask(v, l, scale_name, TensorKind::F32 { expected: 3 });
    assert(asked(v@) =~= asked(old(v)@) + of_layer(
        l as int,
        hc_site_tensors(c, fn_name@, base_name@, scale_name@),
    ));
}

/// The tensors of layer `l`, in the order in which they are taken.
pub fn layer_requests(c: &ModelConfig, role: LayerRole, l: usize) -> (r: Vec<TensorRequest>)
    requires
        tensors_in_range(c),
    ensures
        asked(r@) == of_layer(l as int, layer_tensors(c, role)),
{
    let mut v: Vec<TensorRequest> = Vec::new();
    ask_compressor(&mut v, c, role, l);
    ask_indexer(&mut v, c, role, l);
    ask_common(&mut v, c, l);
    hc_site(&mut v, c, l, "hc_attn_fn", "hc_attn_base", "hc_attn_scale");
    hc_site(&mut v, c, l, "hc_ffn_fn", "hc_ffn_base", "hc_ffn_scale");
    ask(&mut v, l, "attn_norm.weight", TensorKind::Bf16);
    ask(&mut v, l, "ffn_norm.weight", TensorKind::Bf16);
    assert(asked(v@) =~= of_layer(l as int, layer_tensors(c, role)));
    v
}

/// The tensors of an engram layer, in the order in which they are taken.
pub open spec fn engram_tensors() -> Seq<(Seq<char>, TensorKind)> {
    seq![
        ("engram.wq"@, TensorKind::HostF32),
        ("engram.wk"@, TensorKind::HostF32),
        ("engram.wkv"@, TensorKind::Bf16),
    ]
}

/// The tensors of engram layer `l`, in the order in which they are taken.
pub fn engram_requests(l: usize) -> (r: Vec<TensorRequest>)
    ensures
        asked(r@) == of_layer(l as int, engram_tensors()),
{
    let mut v: Vec<TensorRequest> = Vec::new();
    ask(&mut v, l, "engram.wq", TensorKind::HostF32);
    ask(&mut v, l, "engram.wk", TensorKind::HostF32);
    ask(&mut v, l, "engram.wkv", TensorKind::Bf16);
    assert(asked(v@) =~= of_layer(l as int, engram_tensors()));
    v
}

/// Whether the engram vectors of a layer have one value per stream and channel.
pub fn check_engram_qk(layer: usize, q: usize, k: usize, c: &ModelConfig) -> (r: Result<(), LoadError>)
    requires
        c.hc_mult * c.hidden_size <= usize::MAX,
    ensures
        r is Ok <==> q == c.hc_mult * c.hidden_size && k == c.hc_mult * c.hidden_size,
        r matches Err(e) ==> e@ == (LoadErrorView::EngramQk {
            layer,
            q,
            k,
            expected: (c.hc_mult * c.hidden_size) as usize,
        }),
{
    let expected: usize = c.hc_mult * c.hidden_size;
    if q == expected && k == expected {
        Ok(())
    } else {
        Err(LoadError::EngramQk { layer, q, k, expected })
    }
}

/// Whether a layer's correction bias has one value per expert.
pub fn check_gate_bias(layer: usize, held: usize, c: &ModelConfig) -> (r: Result<(), LoadError>)
    ensures
        r is Ok <==> held == c.num_experts,
        r matches Err(e) ==> e@ == (LoadErrorView::GateBias { layer, held }),
{
    if held == c.num_experts {
        Ok(())
    } else {
        Err(LoadError::GateBias { layer, held })
    }
}

/// A tensor that was taken.
#[derive(Debug)]
pub enum Fetched {
    Device(DevicePtr),
    Mat(ResidentMat),
    Host(Vec<u32>),
}

/// A tensor was taken as it was asked for.
pub open spec fn answers(f: Fetched, kind: TensorKind) -> bool {
    match kind {
        TensorKind::Bf16 => f is Device,
        TensorKind::F32 { .. } => f is Device,
        TensorKind::Resident => f is Mat,
        TensorKind::HostF32 => f is Host,
    }
}

/// All tensors of a layer were taken as they were asked for.
pub open spec fn all_answered(fetched: Seq<Fetched>, tensors: Seq<(Seq<char>, TensorKind)>) -> bool {
    &&& fetched.len() == tensors.len()
    &&& forall|i: int| 0 <= i < tensors.len() ==> answers(#[trigger] fetched[i], tensors[i].1)
}

/// The weights of one mixing site.
#[derive(Clone, Copy, Debug, PartialEq, Eq, Structural)]
pub struct HcSiteWeights {
    pub hc_fn: DevicePtr,
    pub hc_base: DevicePtr,
    pub hc_scale: DevicePtr,
}

/// One layer's attention weights as they were taken: the projections in bf16 or
/// in blocks.
#[derive(Clone, Copy, Debug, PartialEq, Eq, Structural)]
pub struct LoadedAttention {
    pub role: LayerRole,
    pub sink: DevicePtr,
    pub wq_a: ResidentMat,
    pub q_norm: DevicePtr,
    pub wq_b: ResidentMat,
    pub wkv: ResidentMat,
    pub kv_norm: DevicePtr,
    pub wo_a: ResidentMat,
    pub wo_b: ResidentMat,
    pub comp: Option<CompressorWeightsGpu>,
    pub idx: Option<IndexerWeightsGpu>,
}

impl LoadedAttention {
    /// All projections are in bf16.
    pub open spec fn is_dense(&self) -> bool {
        &&& self.wq_a is Bf16
        &&& self.wq_b is Bf16
        &&& self.wkv is Bf16
        &&& self.wo_a is Bf16
        &&& self.wo_b is Bf16
    }

    /// The weights of a layer whose projections are all in bf16.
    pub open spec fn dense_weights(&self) -> AttnV41LayerWeights {
        AttnV41LayerWeights {
            role: self.role,
            sink: self.sink,
            wq_a: self.wq_a->Bf16_0,
            q_norm: self.q_norm,
            wq_b: self.wq_b->Bf16_0,
            wkv: self.wkv->Bf16_0,
            kv_norm: self.kv_norm,
            wo_a: self.wo_a->Bf16_0,
            wo_b: self.wo_b->Bf16_0,
            comp: self.comp,
            idx: self.idx,
        }
    }

    /// The weights that the attention can run on: it multiplies bf16
    /// projections, so there are none where a projection is in blocks.
    pub fn dense(&self) -> (r: Option<AttnV41LayerWeights>)
        ensures
            r == if self.is_dense() {
                Some(self.dense_weights())
            } else {
                None
            },
    {
        match (self.wq_a, self.wq_b, self.wkv, self.wo_a, self.wo_b) {
            (
                ResidentMat::Bf16(wq_a),
                ResidentMat::Bf16(wq_b),
                ResidentMat::Bf16(wkv),
                ResidentMat::Bf16(wo_a),
                ResidentMat::Bf16(wo_b),
            ) => Some(
                AttnV41LayerWeights {
                    role: self.role,
                    sink: self.sink,
                    wq_a,
                    q_norm: self.q_norm,
                    wq_b,
                    wkv,
                    kv_norm: self.kv_norm,
                    wo_a,
                    wo_b,
                    comp: self.comp,
                    idx: self.idx,
                },
            ),
            _ => None,
        }
    }
}

/// The weights of one layer.
#[derive(Debug)]
pub struct LayerWeights {
    pub attn: LoadedAttention,
    pub moe: MoeV41LayerWeights,
    pub hc_attn: HcSiteWeights,
    pub hc_ffn: HcSiteWeights,
    pub attn_norm: DevicePtr,
    pub ffn_norm: DevicePtr,
}

/// Where the compressor's tensors end.
pub open spec fn indexer_start(role: LayerRole) -> int {
    if !role.is_kv_source {
        0
    } else if role.ratio > 1 {
        3
    } else {
        2
    }
}

/// Where the indexer's tensors end.
pub open spec fn common_start(role: LayerRole) -> int {
    indexer_start(role) + if !role.is_index_source {
        0int
    } else if role.is_kv_source {
        4
    } else {
        2
    }
}

/// The compressor's weights among the tensors of a layer.
pub open spec fn compressor_of(f: Seq<Fetched>, role: LayerRole) -> Option<CompressorWeightsGpu> {
    if !role.is_kv_source {
        None
    } else if role.ratio > 1 {
        Some(
            CompressorWeightsGpu { kv: f[1]->Device_0, gate: Some(f[2]->Device_0), norm: f[0]->Device_0 },
        )
    } else {
        Some(CompressorWeightsGpu { kv: f[1]->Device_0, gate: None, norm: f[0]->Device_0 })
    }
}

/// The indexer's weights among the tensors of a layer.
pub open spec fn indexer_of(f: Seq<Fetched>, role: LayerRole) -> Option<IndexerWeightsGpu> {
    let s: int = indexer_start(role);
    if !role.is_index_source {
        None
    } else if role.is_kv_source {
        Some(
            IndexerWeightsGpu {
                wq_b: f[s]->Device_0,
                weights_proj: f[s + 1]->Device_0,
                wk: Some(f[s + 2]->Device_0),
                k_norm: Some(f[s + 3]->Device_0),
            },
        )
    } else {
        Some(
            IndexerWeightsGpu {
                wq_b: f[s]->Device_0,
                weights_proj: f[s + 1]->Device_0,
                wk: None,
                k_norm: None,
            },
        )
    }
}

/// The attention's weights among the tensors of a layer.
pub open spec fn attention_of(f: Seq<Fetched>, role: LayerRole) -> LoadedAttention {
    let s: int = common_start(role);
    LoadedAttention {
        role,
        sink: f[s]->Device_0,
        wq_a: f[s + 1]->Mat_0,
        q_norm: f[s + 2]->Device_0,
        wq_b: f[s + 3]->Mat_0,
        wkv: f[s + 4]->Mat_0,
        kv_norm: f[s + 5]->Device_0,
        wo_a: f[s + 6]->Mat_0,
        wo_b: f[s + 7]->Mat_0,
        comp: compressor_of(f, role),
        idx: indexer_of(f, role),
    }
}

fn device_at(f: &Vec<Fetched>, i: usize) -> (r: DevicePtr)
    requires
        i < f@.len(),
        f@[i as int] is Device,
    ensures
        r == f@[i as int]->Device_0,
{
    match &f[i] {
        Fetched::Device(p) => *p,
        _ => DevicePtr(0),
    }
}

fn mat_at(f: &Vec<Fetched>, i: usize) -> (r: ResidentMat)
    requires
        i < f@.len(),
        f@[i as int] is Mat,
    ensures
        r == f@[i as int]->Mat_0,
{
    match &f[i] {
        Fetched::Mat(m) => *m,
        _ => ResidentMat::Bf16(DevicePtr(0)),
    }
}

fn host_at(f: &Vec<Fetched>, i: usize) -> (r: Vec<u32>)
    requires
        i < f@.len(),
        f@[i as int] is Host,
    ensures
        r@ == (f@[i as int]->Host_0)@,
{
    match &f[i] {
        Fetched::Host(v) => copied(v.as_slice()),
        _ => Vec::new(),
    }
}

/// Which tensor is at which place of a layer's list.
pub proof fn lemma_layer_tensors_by_place(c: &ModelConfig, role: LayerRole)
    ensures
        layer_tensors(c, role).len() == common_start(role) + 21,
        forall|i: int| 0 <= i < indexer_start(role) ==> (#[trigger] layer_tensors(c, role)[i]) == compressor_tensors(
            c,
            role,
        )[i],
        forall|i: int|
            indexer_start(role) <= i < common_start(role) ==> (#[trigger] layer_tensors(c, role)[i])
                == indexer_tensors(c, role)[i - indexer_start(role)],
        forall|i: int|
            common_start(role) <= i < common_start(role) + 13 ==> (#[trigger] layer_tensors(c, role)[i])
                == common_tensors(c)[i - common_start(role)],
        forall|i: int|
            common_start(role) + 13 <= i < common_start(role) + 16 ==> (#[trigger] layer_tensors(c, role)[i])
                == hc_site_tensors(c, "hc_attn_fn"@, "hc_attn_base"@, "hc_attn_scale"@)[i - common_start(role) - 13],
        forall|i: int|
            common_start(role) + 16 <= i < common_start(role) + 19 ==> (#[trigger] layer_tensors(c, role)[i])
                == hc_site_tensors(c, "hc_ffn_fn"@, "hc_ffn_base"@, "hc_ffn_scale"@)[i - common_start(role) - 16],
        forall|i: int|
            common_start(role) + 19 <= i < common_start(role) + 21 ==> (#[trigger] layer_tensors(c, role)[i])
                == norm_tensors()[i - common_start(role) - 19],
{
}

/// A layer made of its tensors, each at its place.
pub open spec fn is_layer_of(f: Seq<Fetched>, role: LayerRole, l: usize, r: LayerWeights) -> bool {
    let s: int = common_start(role);
    &&& r.attn == attention_of(f, role)
    &&& r.moe.layer == l as u32
    &&& r.moe.gate_bias@ == (f[s + 8]->Host_0)@
    &&& r.moe.gate_w == f[s + 9]->Device_0
    &&& r.moe.shared_w1 == f[s + 10]->Mat_0
    &&& r.moe.shared_w2 == f[s + 11]->Mat_0
    &&& r.moe.shared_w3 == f[s + 12]->Mat_0
    &&& r.hc_attn == (HcSiteWeights {
        hc_fn: f[s + 13]->Device_0,
        hc_base: f[s + 14]->Device_0,
        hc_scale: f[s + 15]->Device_0,
    })
    &&& r.hc_ffn == (HcSiteWeights {
        hc_fn: f[s + 16]->Device_0,
        hc_base: f[s + 17]->Device_0,
        hc_scale: f[s + 18]->Device_0,
    })
    &&& r.attn_norm == f[s + 19]->Device_0
    &&& r.ffn_norm == f[s + 20]->Device_0
}

/// Makes layer `l` of its tensors, taken in the order of [`layer_requests`].
pub fn assemble_layer(c: &ModelConfig, role: LayerRole, l: usize, f: &Vec<Fetched>) -> (r: LayerWeights)
    requires
        all_answered(f@, layer_tensors(c, role)),
    ensures
        is_layer_of(f@, role, l, r),
        is_named(c, role, f@, r),
{
    proof {
        lemma_layer_tensors_by_place(c, role);
        let t: Seq<(Seq<char>, TensorKind)> = layer_tensors(c, role);
        assert forall|i: int| 0 <= i < t.len() implies answers(#[trigger] f@[i], t[i].1) by {}
    }
    let ghost t: Seq<(Seq<char>, TensorKind)> = layer_tensors(c, role);
    let mut s: usize = 0;
    let comp: Option<CompressorWeightsGpu> = if !role.is_kv_source {
        None
    } else if role.ratio > 1 {
        assert(answers(f@[0], t[0].1) && answers(f@[1], t[1].1) && answers(f@[2], t[2].1));
        s = 3;
        Some(CompressorWeightsGpu { kv: device_at(f, 1), gate: Some(device_at(f, 2)), norm: device_at(f, 0) })
    } else {
        assert(answers(f@[0], t[0].1) && answers(f@[1], t[1].1));
        s = 2;
        Some(CompressorWeightsGpu { kv: device_at(f, 1), gate: None, norm: device_at(f, 0) })
    };
    assert(s == indexer_start(role));
    let idx: Option<IndexerWeightsGpu> = if !role.is_index_source {
        None
    } else if role.is_kv_source {
        assert(answers(f@[s as int], t[s as int].1) && answers(f@[s + 1], t[s + 1].1) && answers(f@[s + 2], t[s + 2].1)
            && answers(f@[s + 3], t[s + 3].1));
        let i: usize = s;
        s = s + 4;
        Some(
            IndexerWeightsGpu {
                wq_b: device_at(f, i),
                weights_proj: device_at(f, i + 1),
                wk: Some(device_at(f, i + 2)),
                k_norm: Some(device_at(f, i + 3)),
            },
        )
    } else {
        assert(answers(f@[s as int], t[s as int].1) && answers(f@[s + 1], t[s + 1].1));
        let i: usize = s;
        s = s + 2;
        Some(
            IndexerWeightsGpu {
                wq_b: device_at(f, i),
                weights_proj: device_at(f, i + 1),
                wk: None,
                k_norm: None,
            },
        )
    };
    assert(s == common_start(role));
    proof {
        assert forall|k: int| 0 <= k < 21 implies answers(#[trigger] f@[s + k], t[s + k].1) by {}
        assert(f@[s as int] == f@[s + 0]);
    }
    let r: LayerWeights = LayerWeights {
        attn: LoadedAttention {
            role,
            sink: device_at(f, s),
            wq_a: mat_at(f, s + 1),
            q_norm: device_at(f, s + 2),
            wq_b: mat_at(f, s + 3),
            wkv: mat_at(f, s + 4),
            kv_norm: device_at(f, s + 5),
            wo_a: mat_at(f, s + 6),
            wo_b: mat_at(f, s + 7),
            comp,
            idx,
        },
        moe: MoeV41LayerWeights {
            layer: l as u32,
            gate_bias: host_at(f, s + 8),
            gate_w: device_at(f, s + 9),
            shared_w1: mat_at(f, s + 10),
            shared_w2: mat_at(f, s + 11),
            shared_w3: mat_at(f, s + 12),
        },
        hc_attn: HcSiteWeights {
            hc_fn: device_at(f, s + 13),
            hc_base: device_at(f, s + 14),
            hc_scale: device_at(f, s + 15),
        },
        hc_ffn: HcSiteWeights {
            hc_fn: device_at(f, s + 16),
            hc_base: device_at(f, s + 17),
            hc_scale: device_at(f, s + 18),
        },
        attn_norm: device_at(f, s + 19),
        ffn_norm: device_at(f, s + 20),
    };
    proof {
        lemma_layer_is_named(c, role, l, f@, r);
    }
    r
}

} // verus!
