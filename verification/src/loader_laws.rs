//! Laws of the loader: how the geometry and the roles of layers follow from the
//! model, that every weight is the tensor of its name, and that the layers it
//! makes can run.

use crate::attn_cfg::{AttnError, AttnV41, AttnV41Cfg, AttnV41LayerState, AttnV41LayerWeights, LayerRole, SharedV41};
use crate::float_bits::float_gt;
use crate::loader::{
    all_answered, all_digits, answers, asked, attention_of, attn_cfg_of, common_start, common_tensors,
    compressor_tensors, digits_value, engram_tensors, hc_site_tensors, indexer_start, indexer_tensors,
    is_index_source, is_kv_source, is_layer_of, is_number, layer_tensors, lemma_layer_tensors_by_place, max_seq_of,
    max_tokens_of, moe_cfg_of, norm_tensors, of_layer, plan_error, role_of, runtime_layout_of, setting_of, text_of,
    unsigned_part, Fetched, LayerWeights, LoadEnv, LoadedAttention, ModelConfig, RuntimeLayout, TensorKind,
    TensorRequest,
};
use crate::moe::{MoeV41Cfg, ResidentMat};
use crate::names::{decimal, layer_name_of, lemma_decimal_says_the_number};
use crate::store::{download_of, found, mat_of, TensorInfo, WeightDtype, WeightStore};
use vstd::prelude::*;

verus! {

/// At most one layer publishes candidates. The layers behind it respect them,
/// it and those in front of it do not.
pub proof fn lemma_candidate_roles(store: &WeightStore, c: &ModelConfig, env: &LoadEnv, k: int, l: int)
    requires
        role_of(store, c, env, k).is_candidate_source,
    ensures
        role_of(store, c, env, l).is_candidate_source <==> l == k,
        role_of(store, c, env, l).uses_candidates <==> l > k,
{
}

/// A call never has more tokens than a sequence has positions.
pub proof fn lemma_calls_fit_sequences(c: &ModelConfig, env: &LoadEnv)
    ensures
        max_tokens_of(c, env) <= max_seq_of(c, env) <= usize::MAX,
{
}

/// A layer as the loader makes it of bf16 projections, on a state made for its
/// role, lacks no weights and no state: the only thing that can be missing is
/// what a layer in front of it has to publish.
pub proof fn lemma_loaded_layers_are_complete(
    attn: AttnV41,
    c: &AttnV41Cfg,
    f: Seq<Fetched>,
    role: LayerRole,
    st: AttnV41LayerState,
    shared: SharedV41,
    m: usize,
    start_pos: usize,
)
    requires
        attention_of(f, role).is_dense(),
        1 <= m <= attn.cfg.max_tokens,
        start_pos + m <= attn.cfg.max_seq,
        st.roomy(AttnV41LayerState::layout_of(c, role)),
    ensures
        ({
            let w: AttnV41LayerWeights = attention_of(f, role).dense_weights();
            &&& role.is_kv_source && role.ratio > 0 ==> AttnV41::compressor_error(&w, &st) is None
            &&& attn.forward_error(&w, &st, &shared, m, start_pos) is None || attn.forward_error(
                &w,
                &st,
                &shared,
                m,
                start_pos,
            ) == Some(AttnError::NoIndexKeys)
            &&& role.is_kv_source ==> st.compress_kv is Some
            &&& AttnV41::call_groups(&w, m as int, start_pos as int) is Some && role.is_index_source
                ==> attn.forward_error(&w, &st, &shared, m, start_pos) is None
        }),
{
}

/// The tensor of this name is one of the layer's, of this kind, and `x` is what
/// was fetched for it.
#[verifier::opaque]
pub open spec fn taken_as(
    c: &ModelConfig,
    role: LayerRole,
    f: Seq<Fetched>,
    name: Seq<char>,
    kind: TensorKind,
    x: Fetched,
) -> bool {
    &&& exists|i: int| 0 <= i < layer_tensors(c, role).len() && (#[trigger] layer_tensors(c, role)[i]).0 == name
    &&& forall|i: int|
        0 <= i < layer_tensors(c, role).len() && (#[trigger] layer_tensors(c, role)[i]).0 == name ==> {
            &&& layer_tensors(c, role)[i].1 == kind
            &&& f[i] == x
        }
}

/// Every weight of a layer is the tensor of the weight's own name.
pub open spec fn is_named(c: &ModelConfig, role: LayerRole, f: Seq<Fetched>, r: LayerWeights) -> bool {
    let hc: int = c.hc_mult as int;
    &&& r.attn.role == role
    &&& taken_as(
        c,
        role,
        f,
        "attn.attn_sink"@,
        TensorKind::F32 { expected: c.num_attention_heads },
        Fetched::Device(r.attn.sink),
    )
    &&& taken_as(c, role, f, "attn.wq_a.weight"@, TensorKind::Resident, Fetched::Mat(r.attn.wq_a))
    &&& taken_as(
        c,
        role,
        f,
        "attn.q_norm.weight"@,
        TensorKind::F32 { expected: c.q_lora_rank },
        Fetched::Device(r.attn.q_norm),
    )
    &&& taken_as(c, role, f, "attn.wq_b.weight"@, TensorKind::Resident, Fetched::Mat(r.attn.wq_b))
    &&& taken_as(c, role, f, "attn.wkv.weight"@, TensorKind::Resident, Fetched::Mat(r.attn.wkv))
    &&& taken_as(
        c,
        role,
        f,
        "attn.kv_norm.weight"@,
        TensorKind::F32 { expected: c.head_dim },
        Fetched::Device(r.attn.kv_norm),
    )
    &&& taken_as(c, role, f, "attn.wo_a.weight"@, TensorKind::Resident, Fetched::Mat(r.attn.wo_a))
    &&& taken_as(c, role, f, "attn.wo_b.weight"@, TensorKind::Resident, Fetched::Mat(r.attn.wo_b))
    &&& taken_as(c, role, f, "ffn.gate.weight"@, TensorKind::Bf16, Fetched::Device(r.moe.gate_w))
    &&& taken_as(c, role, f, "ffn.shared_experts.w1"@, TensorKind::Resident, Fetched::Mat(r.moe.shared_w1))
    &&& taken_as(c, role, f, "ffn.shared_experts.w2"@, TensorKind::Resident, Fetched::Mat(r.moe.shared_w2))
    &&& taken_as(c, role, f, "ffn.shared_experts.w3"@, TensorKind::Resident, Fetched::Mat(r.moe.shared_w3))
    &&& taken_as(
        c,
        role,
        f,
        "hc_attn_fn"@,
        TensorKind::F32 { expected: ((2 + hc) * hc * hc * c.hidden_size) as usize },
        Fetched::Device(r.hc_attn.hc_fn),
    )
    &&& taken_as(
        c,
        role,
        f,
        "hc_attn_base"@,
        TensorKind::F32 { expected: ((2 + hc) * hc) as usize },
        Fetched::Device(r.hc_attn.hc_base),
    )
    &&& taken_as(c, role, f, "hc_attn_scale"@, TensorKind::F32 { expected: 3 }, Fetched::Device(r.hc_attn.hc_scale))
    &&& taken_as(
        c,
        role,
        f,
        "hc_ffn_fn"@,
        TensorKind::F32 { expected: ((2 + hc) * hc * hc * c.hidden_size) as usize },
        Fetched::Device(r.hc_ffn.hc_fn),
    )
    &&& taken_as(
        c,
        role,
        f,
        "hc_ffn_base"@,
        TensorKind::F32 { expected: ((2 + hc) * hc) as usize },
        Fetched::Device(r.hc_ffn.hc_base),
    )
    &&& taken_as(c, role, f, "hc_ffn_scale"@, TensorKind::F32 { expected: 3 }, Fetched::Device(r.hc_ffn.hc_scale))
    &&& taken_as(c, role, f, "attn_norm.weight"@, TensorKind::Bf16, Fetched::Device(r.attn_norm))
    &&& taken_as(c, role, f, "ffn_norm.weight"@, TensorKind::Bf16, Fetched::Device(r.ffn_norm))
    &&& forall|i: int|
        0 <= i < layer_tensors(c, role).len() && (#[trigger] layer_tensors(c, role)[i]).0
            == "ffn.gate.e_score_correction_bias"@ ==> {
            &&& layer_tensors(c, role)[i].1 == TensorKind::HostF32
            &&& f[i] matches Fetched::Host(v)
            &&& r.moe.gate_bias@ == v@
        }
    &&& is_source_named(c, role, f, r.attn)
}

/// The same of a kv source's and an index source's own weights.
pub open spec fn is_source_named(c: &ModelConfig, role: LayerRole, f: Seq<Fetched>, attn: LoadedAttention) -> bool {
    let wide: TensorKind = TensorKind::F32 { expected: (c.head_dim * c.hidden_size) as usize };
    &&& match attn.comp {
        None => !role.is_kv_source,
        Some(comp) => {
            &&& role.is_kv_source
            &&& taken_as(
                c,
                role,
                f,
                "compressor.norm.weight"@,
                TensorKind::F32 { expected: c.head_dim },
                Fetched::Device(comp.norm),
            )
            &&& taken_as(
                c,
                role,
                f,
                "compressor.wkv.weight"@,
                if role.ratio > 1 {
                    wide
                } else {
                    TensorKind::Bf16
                },
                Fetched::Device(comp.kv),
            )
            &&& match comp.gate {
                None => role.ratio <= 1,
                Some(gate) => role.ratio > 1 && taken_as(
                    c,
                    role,
                    f,
                    "compressor.wgate.weight"@,
                    wide,
                    Fetched::Device(gate),
                ),
            }
        },
    }
    &&& match attn.idx {
        None => !role.is_index_source,
        Some(idx) => {
            &&& role.is_index_source
            &&& taken_as(c, role, f, "indexer.wq_b.weight"@, TensorKind::Bf16, Fetched::Device(idx.wq_b))
            &&& taken_as(c, role, f, "indexer.proj.weight"@, TensorKind::Bf16, Fetched::Device(idx.weights_proj))
            &&& idx.wk is Some <==> role.is_kv_source
            &&& idx.k_norm is Some <==> role.is_kv_source
            &&& idx.wk matches Some(wk) ==> taken_as(
                c,
                role,
                f,
                "indexer.wk.weight"@,
                TensorKind::Bf16,
                Fetched::Device(wk),
            )
            &&& idx.k_norm matches Some(k_norm) ==> taken_as(
                c,
                role,
                f,
                "indexer.k_norm.weight"@,
                TensorKind::F32 { expected: c.index_head_dim },
                Fetched::Device(k_norm),
            )
        },
    }
}

/// What tells the names of a layer's tensors apart: the length, two characters
/// and the last one.
spec fn mark(s: Seq<char>) -> (int, char, char, char) {
    mark_of(s.len() as int, s[6], s[8], s.last())
}

spec fn mark_of(n: int, a: char, b: char, c: char) -> (int, char, char, char) {
    (n, a, b, c)
}

/// The place of a name in the list of all tensors that a layer can have.
spec fn rank(s: Seq<char>) -> int {
    let m: (int, char, char, char) = mark(s);
    if m == (mark_of(22, 's', 'o', 't')) {
        0
    } else if m == (mark_of(21, 's', 'o', 't')) {
        1
    } else if m == (mark_of(23, 's', 'o', 't')) {
        2
    } else if m == (mark_of(19, 'r', 'w', 't')) {
        3
    } else if m == (mark_of(19, 'r', 'p', 't')) {
        4
    } else if m == (mark_of(17, 'r', 'w', 't')) {
        5
    } else if m == (mark_of(21, 'r', 'k', 't')) {
        6
    } else if m == (mark_of(14, 't', 'n', 'k')) {
        7
    } else if m == (mark_of(16, 'q', 'a', 't')) {
        8
    } else if m == (mark_of(18, '_', 'o', 't')) {
        9
    } else if m == (mark_of(16, 'q', 'b', 't')) {
        10
    } else if m == (mark_of(15, 'k', '.', 't')) {
        11
    } else if m == (mark_of(19, 'v', 'n', 't')) {
        12
    } else if m == (mark_of(16, 'o', 'a', 't')) {
        13
    } else if m == (mark_of(16, 'o', 'b', 't')) {
        14
    } else if m == (mark_of(32, 't', '.', 's')) {
        15
    } else if m == (mark_of(15, 't', '.', 't')) {
        16
    } else if m == (mark_of(21, 'a', 'e', '1')) {
        17
    } else if m == (mark_of(21, 'a', 'e', '2')) {
        18
    } else if m == (mark_of(21, 'a', 'e', '3')) {
        19
    } else if m == (mark_of(10, 'n', 'f', 'n')) {
        20
    } else if m == (mark_of(12, 'n', 'b', 'e')) {
        21
    } else if m == (mark_of(13, 'n', 's', 'e')) {
        22
    } else if m == (mark_of(9, '_', 'n', 'n')) {
        23
    } else if m == (mark_of(11, '_', 'a', 'e')) {
        24
    } else if m == (mark_of(12, '_', 'c', 'e')) {
        25
    } else if m == (mark_of(16, 'o', 'm', 't')) {
        26
    } else if m == (mark_of(15, 'r', '.', 't')) {
        27
    } else {
        28
    }
}

proof fn lemma_ranks()
    ensures
        rank("compressor.norm.weight"@) == 0,
        rank("compressor.wkv.weight"@) == 1,
        rank("compressor.wgate.weight"@) == 2,
        rank("indexer.wq_b.weight"@) == 3,
        rank("indexer.proj.weight"@) == 4,
        rank("indexer.wk.weight"@) == 5,
        rank("indexer.k_norm.weight"@) == 6,
        rank("attn.attn_sink"@) == 7,
        rank("attn.wq_a.weight"@) == 8,
        rank("attn.q_norm.weight"@) == 9,
        rank("attn.wq_b.weight"@) == 10,
        rank("attn.wkv.weight"@) == 11,
        rank("attn.kv_norm.weight"@) == 12,
        rank("attn.wo_a.weight"@) == 13,
        rank("attn.wo_b.weight"@) == 14,
        rank("ffn.gate.e_score_correction_bias"@) == 15,
        rank("ffn.gate.weight"@) == 16,
        rank("ffn.shared_experts.w1"@) == 17,
        rank("ffn.shared_experts.w2"@) == 18,
        rank("ffn.shared_experts.w3"@) == 19,
        rank("hc_attn_fn"@) == 20,
        rank("hc_attn_base"@) == 21,
        rank("hc_attn_scale"@) == 22,
        rank("hc_ffn_fn"@) == 23,
        rank("hc_ffn_base"@) == 24,
        rank("hc_ffn_scale"@) == 25,
        rank("attn_norm.weight"@) == 26,
        rank("ffn_norm.weight"@) == 27,
{
    assert(rank("compressor.norm.weight"@) == 0) by {
        reveal_strlit("compressor.norm.weight");
    }
    assert(rank("compressor.wkv.weight"@) == 1) by {
        reveal_strlit("compressor.wkv.weight");
    }
    assert(rank("compressor.wgate.weight"@) == 2) by {
        reveal_strlit("compressor.wgate.weight");
    }
    assert(rank("indexer.wq_b.weight"@) == 3) by {
        reveal_strlit("indexer.wq_b.weight");
    }
    assert(rank("indexer.proj.weight"@) == 4) by {
        reveal_strlit("indexer.proj.weight");
    }
    assert(rank("indexer.wk.weight"@) == 5) by {
        reveal_strlit("indexer.wk.weight");
    }
    assert(rank("indexer.k_norm.weight"@) == 6) by {
        reveal_strlit("indexer.k_norm.weight");
    }
    assert(rank("attn.attn_sink"@) == 7) by {
        reveal_strlit("attn.attn_sink");
    }
    assert(rank("attn.wq_a.weight"@) == 8) by {
        reveal_strlit("attn.wq_a.weight");
    }
    assert(rank("attn.q_norm.weight"@) == 9) by {
        reveal_strlit("attn.q_norm.weight");
    }
    assert(rank("attn.wq_b.weight"@) == 10) by {
        reveal_strlit("attn.wq_b.weight");
    }
    assert(rank("attn.wkv.weight"@) == 11) by {
        reveal_strlit("attn.wkv.weight");
    }
    assert(rank("attn.kv_norm.weight"@) == 12) by {
        reveal_strlit("attn.kv_norm.weight");
    }
    assert(rank("attn.wo_a.weight"@) == 13) by {
        reveal_strlit("attn.wo_a.weight");
    }
    assert(rank("attn.wo_b.weight"@) == 14) by {
        reveal_strlit("attn.wo_b.weight");
    }
    assert(rank("ffn.gate.e_score_correction_bias"@) == 15) by {
        reveal_strlit("ffn.gate.e_score_correction_bias");
    }
    assert(rank("ffn.gate.weight"@) == 16) by {
        reveal_strlit("ffn.gate.weight");
    }
    assert(rank("ffn.shared_experts.w1"@) == 17) by {
        reveal_strlit("ffn.shared_experts.w1");
    }
    assert(rank("ffn.shared_experts.w2"@) == 18) by {
        reveal_strlit("ffn.shared_experts.w2");
    }
    assert(rank("ffn.shared_experts.w3"@) == 19) by {
        reveal_strlit("ffn.shared_experts.w3");
    }
    assert(rank("hc_attn_fn"@) == 20) by {
        reveal_strlit("hc_attn_fn");
    }
    assert(rank("hc_attn_base"@) == 21) by {
        reveal_strlit("hc_attn_base");
    }
    assert(rank("hc_attn_scale"@) == 22) by {
        reveal_strlit("hc_attn_scale");
    }
    assert(rank("hc_ffn_fn"@) == 23) by {
        reveal_strlit("hc_ffn_fn");
    }
    assert(rank("hc_ffn_base"@) == 24) by {
        reveal_strlit("hc_ffn_base");
    }
    assert(rank("hc_ffn_scale"@) == 25) by {
        reveal_strlit("hc_ffn_scale");
    }
    assert(rank("attn_norm.weight"@) == 26) by {
        reveal_strlit("attn_norm.weight");
    }
    assert(rank("ffn_norm.weight"@) == 27) by {
        reveal_strlit("ffn_norm.weight");
    }
}

/// No two tensors of a layer have the same name.
pub proof fn lemma_tensor_names_distinct(c: &ModelConfig, role: LayerRole, i: int, j: int)
    requires
        0 <= i < j < layer_tensors(c, role).len(),
    ensures
        layer_tensors(c, role)[i].0 != layer_tensors(c, role)[j].0,
{
    lemma_tensor_rank(c, role, i);
    lemma_tensor_rank(c, role, j);
}

proof fn lemma_tensor_rank(c: &ModelConfig, role: LayerRole, i: int)
    requires
        0 <= i < layer_tensors(c, role).len(),
    ensures
        rank(layer_tensors(c, role)[i].0) == if i < indexer_start(role) {
            i
        } else if i < common_start(role) {
            3 + i - indexer_start(role)
        } else {
            7 + i - common_start(role)
        },
{
    lemma_ranks();
    lemma_layer_tensors_by_place(c, role);
    let s: int = common_start(role);
    if i < indexer_start(role) {
        assert(layer_tensors(c, role)[i] == compressor_tensors(c, role)[i]);
    } else if i < s {
        assert(layer_tensors(c, role)[i] == indexer_tensors(c, role)[i - indexer_start(role)]);
    } else if i < s + 13 {
        assert(layer_tensors(c, role)[i] == common_tensors(c)[i - s]);
    } else if i < s + 16 {
        assert(layer_tensors(c, role)[i] == hc_site_tensors(c, "hc_attn_fn"@, "hc_attn_base"@, "hc_attn_scale"@)[i - s
            - 13]);
    } else if i < s + 19 {
        assert(layer_tensors(c, role)[i] == hc_site_tensors(c, "hc_ffn_fn"@, "hc_ffn_base"@, "hc_ffn_scale"@)[i - s - 16]);
    } else {
        assert(layer_tensors(c, role)[i] == norm_tensors()[i - s - 19]);
    }
}

proof fn lemma_taken_at(c: &ModelConfig, role: LayerRole, f: Seq<Fetched>, name: Seq<char>, k: int)
    requires
        0 <= k < layer_tensors(c, role).len(),
        layer_tensors(c, role)[k].0 == name,
    ensures
        taken_as(c, role, f, name, layer_tensors(c, role)[k].1, f[k]),
        forall|i: int|
            0 <= i < layer_tensors(c, role).len() && (#[trigger] layer_tensors(c, role)[i]).0 == name ==> i == k,
{
    reveal(taken_as);
    assert forall|i: int|
        0 <= i < layer_tensors(c, role).len() && (#[trigger] layer_tensors(c, role)[i]).0 == name implies i == k by {
        if i < k {
            lemma_tensor_names_distinct(c, role, i, k);
        } else if k < i {
            lemma_tensor_names_distinct(c, role, k, i);
        }
    }
}

proof fn lemma_source_is_named(c: &ModelConfig, role: LayerRole, f: Seq<Fetched>)
    requires
        all_answered(f, layer_tensors(c, role)),
    ensures
        is_source_named(c, role, f, attention_of(f, role)),
{
    let d: int = indexer_start(role);
    let t: Seq<(Seq<char>, TensorKind)> = layer_tensors(c, role);
    lemma_layer_tensors_by_place(c, role);
    assert forall|i: int| 0 <= i < t.len() implies answers(#[trigger] f[i], t[i].1) by {}
    if role.is_kv_source {
        lemma_taken_at(c, role, f, "compressor.norm.weight"@, 0);
        lemma_taken_at(c, role, f, "compressor.wkv.weight"@, 1);
        if role.ratio > 1 {
            lemma_taken_at(c, role, f, "compressor.wgate.weight"@, 2);
        }
    }
    if role.is_index_source {
        lemma_taken_at(c, role, f, "indexer.wq_b.weight"@, d);
        lemma_taken_at(c, role, f, "indexer.proj.weight"@, d + 1);
        if role.is_kv_source {
            lemma_taken_at(c, role, f, "indexer.wk.weight"@, d + 2);
            lemma_taken_at(c, role, f, "indexer.k_norm.weight"@, d + 3);
        }
    }
}

/// A layer's weights are the tensors of their own names: where the loader puts
/// what it fetched by place, every weight is the one fetched under its name,
/// of its kind and size.
pub proof fn lemma_layer_is_named(c: &ModelConfig, role: LayerRole, l: usize, f: Seq<Fetched>, r: LayerWeights)
    requires
        all_answered(f, layer_tensors(c, role)),
        is_layer_of(f, role, l, r),
    ensures
        is_named(c, role, f, r),
{
    let s: int = common_start(role);
    let hc: int = c.hc_mult as int;
    let t: Seq<(Seq<char>, TensorKind)> = layer_tensors(c, role);
    lemma_layer_tensors_by_place(c, role);
    assert forall|i: int| 0 <= i < t.len() implies answers(#[trigger] f[i], t[i].1) by {}
    assert forall|k: int| 0 <= k < 21 implies answers(#[trigger] f[s + k], t[s + k].1) by {}
    assert(f[s] == f[s + 0]);
    lemma_taken_at(c, role, f, "attn.attn_sink"@, s + 0);
    lemma_taken_at(c, role, f, "attn.wq_a.weight"@, s + 1);
    lemma_taken_at(c, role, f, "attn.q_norm.weight"@, s + 2);
    lemma_taken_at(c, role, f, "attn.wq_b.weight"@, s + 3);
    lemma_taken_at(c, role, f, "attn.wkv.weight"@, s + 4);
    lemma_taken_at(c, role, f, "attn.kv_norm.weight"@, s + 5);
    lemma_taken_at(c, role, f, "attn.wo_a.weight"@, s + 6);
    lemma_taken_at(c, role, f, "attn.wo_b.weight"@, s + 7);
    lemma_taken_at(c, role, f, "ffn.gate.weight"@, s + 9);
    lemma_taken_at(c, role, f, "ffn.shared_experts.w1"@, s + 10);
    lemma_taken_at(c, role, f, "ffn.shared_experts.w2"@, s + 11);
    lemma_taken_at(c, role, f, "ffn.shared_experts.w3"@, s + 12);
    lemma_taken_at(c, role, f, "hc_attn_fn"@, s + 13);
    lemma_taken_at(c, role, f, "hc_attn_base"@, s + 14);
    lemma_taken_at(c, role, f, "hc_attn_scale"@, s + 15);
    lemma_taken_at(c, role, f, "hc_ffn_fn"@, s + 16);
    lemma_taken_at(c, role, f, "hc_ffn_base"@, s + 17);
    lemma_taken_at(c, role, f, "hc_ffn_scale"@, s + 18);
    lemma_taken_at(c, role, f, "attn_norm.weight"@, s + 19);
    lemma_taken_at(c, role, f, "ffn_norm.weight"@, s + 20);
    lemma_taken_at(c, role, f, "ffn.gate.e_score_correction_bias"@, s + 8);
    lemma_source_is_named(c, role, f);
}

/// Every dimension of the geometry is the model's own. Where the model says
/// nothing of one, it has its default: one output group, 2048 candidate blocks
/// of 8 positions, YaRN by 16 from 65536 positions with bounds 32 and 1.
pub proof fn lemma_geometry_is_the_models(c: &ModelConfig, env: &LoadEnv)
    ensures
        ({
            let a: AttnV41Cfg = attn_cfg_of(c, env);
            &&& a.dim == c.hidden_size
            &&& a.n_heads == c.num_attention_heads
            &&& a.head_dim == c.head_dim
            &&& a.rope_dim == c.rotary_dim
            &&& a.q_rank == c.q_lora_rank
            &&& a.o_rank == c.o_lora_rank
            &&& a.window == c.sliding_window
            &&& a.eps == c.rms_norm_eps
            &&& a.index_heads == c.index_n_heads
            &&& a.index_hd == c.index_head_dim
            &&& a.index_topk == c.index_topk
            &&& a.rope_theta == c.rope_theta
            &&& a.compress_rope_theta == c.compress_rope_theta
            &&& c.o_groups > 0 ==> a.groups == c.o_groups
            &&& c.o_groups == 0 ==> a.groups == 1
            &&& c.candidate_topk_blocks > 0 ==> a.cand_topk_blocks == c.candidate_topk_blocks
            &&& c.candidate_topk_blocks == 0 ==> a.cand_topk_blocks == 2048
            &&& c.candidate_block_size > 0 ==> a.cand_block == c.candidate_block_size
            &&& c.candidate_block_size == 0 ==> a.cand_block == 8
            &&& c.yarn_original_max_position_embeddings > 0 ==> a.orig_seq == c.yarn_original_max_position_embeddings
            &&& c.yarn_original_max_position_embeddings == 0 ==> a.orig_seq == 65536
            &&& a.rope_factor == if float_gt(c.yarn_factor, 0) {
                c.yarn_factor
            } else {
                0x4180_0000
            }
            &&& a.beta_fast == if float_gt(c.yarn_beta_fast, 0) {
                c.yarn_beta_fast
            } else {
                0x4200_0000
            }
            &&& a.beta_slow == if float_gt(c.yarn_beta_slow, 0) {
                c.yarn_beta_slow
            } else {
                0x3f80_0000
            }
        }),
        ({
            let e: MoeV41Cfg = moe_cfg_of(c, env);
            &&& e.dim == c.hidden_size
            &&& e.inter == c.moe_intermediate_size
            &&& e.n_routed == c.num_experts
            &&& e.topk == c.num_experts_per_tok
            &&& e.gate_temp == 0x3f80_0000
            &&& e.norm_topk_prob == c.norm_topk_prob
            &&& e.route_scale == c.routed_scaling_factor
            &&& e.swiglu_limit == c.swiglu_limit
            &&& e.max_tokens == attn_cfg_of(c, env).max_tokens
        }),
{
}

/// The limits of a call and of a sequence: what is set, else 2048 tokens and
/// 8192 positions, but never more positions than the model has, nor more tokens
/// than positions.
pub proof fn lemma_limits(c: &ModelConfig, env: &LoadEnv)
    requires
        c.max_position_embeddings > 0,
    ensures
        ({
            let a: AttnV41Cfg = attn_cfg_of(c, env);
            let seq: int = setting_of(text_of(env.max_seq), 8192);
            let tokens: int = setting_of(text_of(env.max_tokens), 2048);
            &&& a.max_seq <= c.max_position_embeddings
            &&& a.max_seq <= seq
            &&& a.max_seq == c.max_position_embeddings || a.max_seq == seq
            &&& a.max_tokens <= a.max_seq
            &&& a.max_tokens <= tokens
            &&& a.max_tokens == a.max_seq || a.max_tokens == tokens
            &&& env.max_seq is None ==> seq == 8192
            &&& env.max_tokens is None ==> tokens == 2048
        }),
{
    lemma_setting_in_range(text_of(env.max_seq), 8192);
    lemma_setting_in_range(text_of(env.max_tokens), 2048);
}

proof fn lemma_digits_value(b: Seq<u8>)
    requires
        all_digits(b),
    ensures
        0 <= digits_value(b),
    decreases b.len(),
{
    if b.len() > 0 {
        assert forall|i: int| 0 <= i < b.drop_last().len() implies 48 <= #[trigger] b.drop_last()[i] <= 57 by {
            assert(b.drop_last()[i] == b[i]);
        }
        lemma_digits_value(b.drop_last());
        assert(b.last() == b[b.len() - 1]);
    }
}

proof fn lemma_setting_in_range(value: Option<Seq<u8>>, default: usize)
    ensures
        0 <= setting_of(value, default) <= usize::MAX,
{
    if let Some(b) = value {
        if is_number(b) {
            lemma_digits_value(unsigned_part(b));
        }
    }
}

proof fn lemma_digits_of_decimal(b: Seq<u8>, n: int)
    requires
        0 <= n,
        b.len() == decimal(n).len(),
        forall|i: int| 0 <= i < b.len() ==> #[trigger] b[i] as int == decimal(n)[i] as int,
    ensures
        all_digits(b),
        digits_value(b) == n,
    decreases n,
{
    lemma_decimal_says_the_number(n);
    reveal_with_fuel(digits_value, 2);
    let d: Seq<char> = decimal(n);
    assert forall|i: int| 0 <= i < b.len() implies 48 <= #[trigger] b[i] <= 57 by {
        assert(d[i] as int == b[i] as int);
    }
    assert(b.len() > 0);
    assert(b.last() as int == d.last() as int);
    if n >= 10 {
        assert(d.drop_last() =~= decimal(n / 10));
        assert forall|i: int| 0 <= i < b.drop_last().len() implies #[trigger] b.drop_last()[i] as int == decimal(n / 10)[i] as int by {
            assert(b.drop_last()[i] == b[i]);
        }
        lemma_digits_of_decimal(b.drop_last(), n / 10);
        assert(d.last() as int == 48 + n % 10);
    } else {
        assert(d.last() as int == 48 + n);
        assert(b.drop_last().len() == 0);
    }
}

/// A setting that writes a number in decimal gives that number, with a plus sign
/// in front or without.
pub proof fn lemma_setting_reads_decimal(b: Seq<u8>, n: usize, default: usize)
    requires
        b.len() == decimal(n as int).len(),
        forall|i: int| 0 <= i < b.len() ==> #[trigger] b[i] as int == decimal(n as int)[i] as int,
    ensures
        setting_of(Some(b), default) == n,
        setting_of(Some(seq![43u8] + b), default) == n,
{
    lemma_digits_of_decimal(b, n as int);
    lemma_decimal_says_the_number(n as int);
    assert(b.len() > 0);
    assert(b[0] != 43);
    assert((seq![43u8] + b).skip(1) =~= b);
    assert((seq![43u8] + b)[0] == 43);
}

/// A layer's role: its ratio is the model's for its number; it is a kv source
/// where the model has its compressor, an index source where the model has its
/// indexer. Candidates are those of one layer, by number: the model's, else the
/// environment's, else layer 20.
pub proof fn lemma_role(store: &WeightStore, c: &ModelConfig, env: &LoadEnv, l: int)
    ensures
        ({
            let r: LayerRole = role_of(store, c, env, l);
            let source: int = match c.candidate_source_layer_id {
                Some(k) => k as int,
                None => setting_of(text_of(env.candidate_source), 20),
            };
            &&& r.ratio == c.compress_ratios@[l]
            &&& r.is_kv_source <==> store.tensor(layer_name_of(l, "compressor.wkv.weight"@)) is Some
            &&& r.is_index_source <==> store.tensor(layer_name_of(l, "indexer.wq_b.weight"@)) is Some
            &&& r.is_candidate_source <==> l == source
            &&& r.uses_candidates <==> l > source
        }),
{
}

/// When a model is accepted: its stacks hold its experts, every layer has a
/// ratio, and some layer is a kv source and some layer an index source.
pub proof fn lemma_model_accepted(store: &WeightStore, c: &ModelConfig, env: &LoadEnv, stacked_experts: usize)
    ensures
        plan_error(store, c, stacked_experts) is None <==> {
            &&& stacked_experts == c.num_experts
            &&& c.compress_ratios@.len() >= c.num_hidden_layers
            &&& exists|l: int| 0 <= l < c.num_hidden_layers && (#[trigger] role_of(store, c, env, l)).is_kv_source
            &&& exists|l: int| 0 <= l < c.num_hidden_layers && (#[trigger] role_of(store, c, env, l)).is_index_source
        },
{
    if exists|l: int| 0 <= l < c.num_hidden_layers && #[trigger] is_kv_source(store, l) {
        let l: int = choose|l: int| 0 <= l < c.num_hidden_layers && #[trigger] is_kv_source(store, l);
        assert(role_of(store, c, env, l).is_kv_source);
    }
    if exists|l: int| 0 <= l < c.num_hidden_layers && #[trigger] is_index_source(store, l) {
        let l: int = choose|l: int| 0 <= l < c.num_hidden_layers && #[trigger] is_index_source(store, l);
        assert(role_of(store, c, env, l).is_index_source);
    }
}

/// What all layers share, per token: one f32 per stream four times over, the
/// mixing weights of a site, a square of the streams, and one bf16 row.
pub proof fn lemma_shared_sizes(max_tokens: int, hc: int, dim: int)
    requires
        1 <= max_tokens,
        1 <= hc <= 4,
        0 <= dim,
        max_tokens * (2 + hc) * hc * 4 <= usize::MAX,
        max_tokens * dim * 2 <= usize::MAX,
        16 <= max_tokens * hc * 4,
    ensures
        ({
            let r: RuntimeLayout = runtime_layout_of(max_tokens, hc, dim);
            &&& r.pre_prev == 4 * hc * max_tokens
            &&& r.pre_a == 4 * hc * max_tokens
            &&& r.pre_f == 4 * hc * max_tokens
            &&& r.post_s == 4 * hc * max_tokens
            &&& r.comb_s == 4 * (hc * hc) * max_tokens
            &&& r.mixes_s == r.comb_s + r.pre_a + r.post_s
            &&& r.attn_in == 2 * dim * max_tokens
        }),
{
    let t: int = max_tokens;
    assert(t * hc * 4 == 4 * hc * t && t * hc * hc * 4 == 4 * (hc * hc) * t && t * dim * 2 == 2 * dim * t) by (
        nonlinear_arith
    );
    assert(t * (2 + hc) * hc * 4 == 4 * (hc * hc) * t + 2 * (4 * hc * t)) by (nonlinear_arith);
    assert(4 * hc * t <= 4 * (hc * hc) * t && 0 <= 4 * hc * t) by (nonlinear_arith)
        requires
            hc >= 1,
            t >= 1,
    ;
}

/// Every tensor that is asked for of a layer is the layer's own, under its full
/// name, of the kind that is listed.
pub proof fn lemma_requests_are_of_the_layer(
    requests: Seq<TensorRequest>,
    l: int,
    tensors: Seq<(Seq<char>, TensorKind)>,
    i: int,
)
    requires
        asked(requests) == of_layer(l, tensors),
        0 <= i < tensors.len(),
    ensures
        requests.len() == tensors.len(),
        requests[i].name@ == "model.layers."@ + decimal(l) + "."@ + tensors[i].0,
        requests[i].kind == tensors[i].1,
{
    assert(asked(requests).len() == requests.len());
    assert(asked(requests)[i] == of_layer(l, tensors)[i]);
}

/// The first tensor of a name is found, and none where there is none.
pub proof fn lemma_first_of_a_name_is_found(tensors: Seq<TensorInfo>, name: Seq<char>, i: int)
    requires
        0 <= i <= tensors.len(),
        forall|j: int| 0 <= j < i ==> (#[trigger] tensors[j]).name@ != name,
    ensures
        i < tensors.len() && tensors[i].name@ == name ==> found(tensors, name) == Some(tensors[i]),
        i == tensors.len() ==> found(tensors, name) is None,
    decreases tensors.len(),
{
    if tensors.len() > 0 && i > 0 {
        assert(tensors[0].name@ != name);
        let rest: Seq<TensorInfo> = tensors.skip(1);
        assert forall|j: int| 0 <= j < i - 1 implies (#[trigger] rest[j]).name@ != name by {
            assert(rest[j] == tensors[j + 1]);
        }
        lemma_first_of_a_name_is_found(rest, name, i - 1);
        if i < tensors.len() {
            assert(rest[i - 1] == tensors[i]);
        }
    }
}

/// The weights that attention runs on are the tensors of their own names: every
/// projection is the bf16 matrix fetched under its name.
pub proof fn lemma_dense_weights_are_named(c: &ModelConfig, role: LayerRole, f: Seq<Fetched>, r: LayerWeights)
    requires
        is_named(c, role, f, r),
        r.attn.is_dense(),
    ensures
        ({
            let w: AttnV41LayerWeights = r.attn.dense_weights();
            let kind: TensorKind = TensorKind::Resident;
            &&& w.role == role
            &&& taken_as(c, role, f, "attn.wq_a.weight"@, kind, Fetched::Mat(ResidentMat::Bf16(w.wq_a)))
            &&& taken_as(c, role, f, "attn.wq_b.weight"@, kind, Fetched::Mat(ResidentMat::Bf16(w.wq_b)))
            &&& taken_as(c, role, f, "attn.wkv.weight"@, kind, Fetched::Mat(ResidentMat::Bf16(w.wkv)))
            &&& taken_as(c, role, f, "attn.wo_a.weight"@, kind, Fetched::Mat(ResidentMat::Bf16(w.wo_a)))
            &&& taken_as(c, role, f, "attn.wo_b.weight"@, kind, Fetched::Mat(ResidentMat::Bf16(w.wo_b)))
            &&& w.sink == r.attn.sink
            &&& w.q_norm == r.attn.q_norm
            &&& w.kv_norm == r.attn.kv_norm
            &&& w.comp == r.attn.comp
            &&& w.idx == r.attn.idx
        }),
{
}

/// An engram layer has three tensors of its own: two for the host, and the
/// bf16 one that stays on the device.
pub proof fn lemma_engram_tensors()
    ensures
        engram_tensors().len() == 3,
        engram_tensors()[0] == ("engram.wq"@, TensorKind::HostF32),
        engram_tensors()[1] == ("engram.wk"@, TensorKind::HostF32),
        engram_tensors()[2] == ("engram.wkv"@, TensorKind::Bf16),
{
}

/// A tensor is used as what it is stored as, where it is: in bf16 or in blocks
/// of either kind. Of its values as f32 there are two bytes each to read in
/// bf16, four in f32, and the tensor's own bytes in blocks.
pub proof fn lemma_tensors_are_taken_as_stored(t: TensorInfo)
    requires
        t.elements * 4 <= usize::MAX,
    ensures
        mat_of(t.dtype, t.ptr) == match t.dtype {
            WeightDtype::BF16 => Some(ResidentMat::Bf16(t.ptr)),
            WeightDtype::Q2K => Some(ResidentMat::Q2K(t.ptr)),
            WeightDtype::Q3K => Some(ResidentMat::Q3K(t.ptr)),
            _ => None,
        },
        download_of(t) is None <==> t.dtype == WeightDtype::Other,
        download_of(t) matches Some(d) ==> {
            &&& d.ptr == t.ptr
            &&& d.dtype == t.dtype
            &&& d.elements == t.elements
            &&& t.dtype == WeightDtype::BF16 ==> d.bytes == 2 * t.elements
            &&& t.dtype == WeightDtype::FP32 ==> d.bytes == 4 * t.elements
            &&& t.dtype == WeightDtype::Q2K || t.dtype == WeightDtype::Q3K ==> d.bytes == t.bytes
        },
{
}

} // verus!
