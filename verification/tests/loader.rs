use spark_model::attn_cfg::LayerRole;
use spark_model::device::DevicePtr;
use spark_model::loader::{
    assemble_layer, check_engram_qk, check_gate_bias, engram_requests, env_usize, layer_requests, load_fits,
    tensors_fit, DeepSeekV41WeightLoader, Fetched, LoadEnv, ModelConfig, TensorKind,
};
use spark_model::moe::ResidentMat;
use spark_model::names::layer_name;
use spark_model::store::{
    bf16_ptr, check_elements, download_f32, resident_mat, widen, Download, LoadError, TensorInfo, WeightDtype,
    WeightStore,
};

fn config() -> ModelConfig {
    ModelConfig {
        num_hidden_layers: 3,
        hidden_size: 16,
        hc_mult: 4,
        hc_sinkhorn_iters: 0,
        head_dim: 32,
        num_attention_heads: 2,
        num_experts: 6,
        num_experts_per_tok: 2,
        moe_intermediate_size: 256,
        norm_topk_prob: true,
        routed_scaling_factor: 2.5f32.to_bits(),
        swiglu_limit: 10.0f32.to_bits(),
        max_position_embeddings: 100,
        compress_ratios: vec![0, 2, 1, 9],
        candidate_source_layer_id: Some(1),
        candidate_topk_blocks: 0,
        candidate_block_size: 0,
        rotary_dim: 8,
        q_lora_rank: 6,
        o_lora_rank: 3,
        o_groups: 0,
        sliding_window: 4,
        rms_norm_eps: 1e-6f32.to_bits(),
        index_n_heads: 2,
        index_head_dim: 32,
        index_topk: 5,
        rope_theta: 10000f32.to_bits(),
        compress_rope_theta: 40000f32.to_bits(),
        yarn_factor: 0,
        yarn_original_max_position_embeddings: 0,
        yarn_beta_fast: (-1.0f32).to_bits(),
        yarn_beta_slow: f32::NAN.to_bits(),
    }
}

fn env() -> LoadEnv {
    LoadEnv {
        max_seq: None,
        max_tokens: None,
        cache_gib: None,
        reader_threads: None,
        candidate_source: None,
    }
}

fn text(s: &str) -> Option<Vec<u8>> {
    Some(s.as_bytes().to_vec())
}

fn tensor(name: &str, dtype: WeightDtype, ptr: u64, elements: usize) -> TensorInfo {
    TensorInfo {
        name: name.to_string(),
        dtype,
        ptr: DevicePtr(ptr),
        elements,
        bytes: 84,
    }
}

fn store() -> WeightStore {
    WeightStore {
        tensors: vec![
            tensor("model.layers.1.compressor.wkv.weight", WeightDtype::FP32, 1, 512),
            tensor("model.layers.1.indexer.wq_b.weight", WeightDtype::BF16, 2, 8),
            tensor("model.layers.2.indexer.wq_b.weight", WeightDtype::BF16, 3, 8),
            tensor("q2", WeightDtype::Q2K, 4, 256),
            tensor("q3", WeightDtype::Q3K, 5, 256),
            tensor("odd", WeightDtype::Other, 6, 4),
        ],
        deferred: vec!["model.layers.0.ffn.experts_stack.gate".to_string()],
    }
}

#[test]
fn settings_are_numbers_or_defaults() {
    for (s, want) in [
        ("17", 17usize),
        ("+17", 17),
        ("007", 7),
        ("0", 0),
        ("", 5),
        ("+", 5),
        ("-1", 5),
        ("1 ", 5),
        ("1_0", 5),
        ("0x10", 5),
        ("++1", 5),
        ("18446744073709551615", usize::MAX),
        ("18446744073709551616", 5),
        ("99999999999999999999999999", 5),
    ] {
        assert_eq!(env_usize(&text(s), 5), want, "{s:?}");
        assert_eq!(s.parse::<usize>().unwrap_or(5), want, "{s:?}");
    }
    assert_eq!(env_usize(&None, 5), 5);
}

#[test]
fn names_are_written_in_decimal() {
    assert_eq!(layer_name(0, "attn_norm.weight"), "model.layers.0.attn_norm.weight");
    assert_eq!(layer_name(40, "x"), "model.layers.40.x");
    assert_eq!(layer_name(1907, "x"), "model.layers.1907.x");
    assert_ne!(layer_name(1, "1.x"), layer_name(11, "x"));
}

#[test]
fn tensors_are_taken_by_their_format() {
    let s = store();
    let name = |n: &str| n.to_string();
    assert_eq!(bf16_ptr(&s, &name("model.layers.1.indexer.wq_b.weight")), Ok(DevicePtr(2)));
    assert_eq!(
        bf16_ptr(&s, &name("q2")),
        Err(LoadError::NotBf16 { name: name("q2"), dtype: WeightDtype::Q2K })
    );
    assert_eq!(bf16_ptr(&s, &name("none")), Err(LoadError::Missing { name: name("none") }));
    assert_eq!(resident_mat(&s, &name("q2")), Ok(ResidentMat::Q2K(DevicePtr(4))));
    assert_eq!(resident_mat(&s, &name("q3")), Ok(ResidentMat::Q3K(DevicePtr(5))));
    assert_eq!(
        resident_mat(&s, &name("model.layers.2.indexer.wq_b.weight")),
        Ok(ResidentMat::Bf16(DevicePtr(3)))
    );
    assert_eq!(
        resident_mat(&s, &name("odd")),
        Err(LoadError::NotResident { name: name("odd"), dtype: WeightDtype::Other })
    );
    assert_eq!(resident_mat(&s, &name("none")), Err(LoadError::Missing { name: name("none") }));
    assert_eq!(
        download_f32(&s, &name("q3")),
        Ok(Download { ptr: DevicePtr(5), bytes: 84, dtype: WeightDtype::Q3K, elements: 256 })
    );
    assert_eq!(
        download_f32(&s, &name("model.layers.1.indexer.wq_b.weight")).unwrap().bytes,
        16
    );
    assert_eq!(
        download_f32(&s, &name("model.layers.1.compressor.wkv.weight")).unwrap().bytes,
        2048
    );
    assert_eq!(
        download_f32(&s, &name("odd")),
        Err(LoadError::NotWidenable { name: name("odd"), dtype: WeightDtype::Other })
    );
    assert_eq!(download_f32(&s, &name("none")), Err(LoadError::Missing { name: name("none") }));
}

#[test]
fn values_are_widened() {
    let d = |dtype: WeightDtype| Download { ptr: DevicePtr(0), bytes: 4, dtype, elements: 2 };
    assert_eq!(
        widen(&d(WeightDtype::BF16), &[0x80, 0x3F, 0x00, 0xC0]),
        Some(vec![1.0f32.to_bits(), (-2.0f32).to_bits()])
    );
    assert_eq!(
        widen(&d(WeightDtype::FP32), &[0x00, 0x00, 0x80, 0x3F]),
        Some(vec![1.0f32.to_bits()])
    );
    assert_eq!(widen(&d(WeightDtype::Q2K), &[0; 84]), None);
    assert!(check_elements(&"a".to_string(), 3, 3).is_ok());
    assert_eq!(
        check_elements(&"a".to_string(), 2, 3),
        Err(LoadError::Elements { name: "a".to_string(), held: 2, expected: 3 })
    );
}

#[test]
fn a_model_is_refused_before_its_experts_are_opened() {
    let l = DeepSeekV41WeightLoader;
    assert_eq!(l.check_start(&store(), &config()), Ok(()));
    for hc in [0usize, 5] {
        let c = ModelConfig { hc_mult: hc, ..config() };
        assert_eq!(l.check_start(&store(), &c), Err(LoadError::HcMult { hc_mult: hc }));
    }
    let s = WeightStore { deferred: vec![], ..store() };
    assert_eq!(l.check_start(&s, &config()), Err(LoadError::NotDeferred));
}

#[test]
fn a_model_that_does_not_fit_together_is_refused() {
    let l = DeepSeekV41WeightLoader;
    assert_eq!(
        l.load_layers(&store(), &config(), &env(), 5).unwrap_err(),
        LoadError::Experts { held: 5, expected: 6 }
    );
    let c = ModelConfig { compress_ratios: vec![0, 2], ..config() };
    assert_eq!(
        l.load_layers(&store(), &c, &env(), 6).unwrap_err(),
        LoadError::Ratios { held: 2, layers: 3 }
    );
    let s = WeightStore { tensors: vec![], deferred: vec![] };
    assert_eq!(l.load_layers(&s, &config(), &env(), 6).unwrap_err(), LoadError::NoSources);
}

#[test]
fn roles_follow_the_tensors_and_the_candidate_source() {
    let p = DeepSeekV41WeightLoader.load_layers(&store(), &config(), &env(), 6).unwrap();
    let role = |ratio: usize, kv: bool, index: bool, source: bool, uses: bool| LayerRole {
        ratio,
        is_kv_source: kv,
        is_index_source: index,
        is_candidate_source: source,
        uses_candidates: uses,
    };
    assert_eq!(
        p.roles,
        vec![
            role(0, false, false, false, false),
            role(2, true, true, true, false),
            role(1, false, true, false, true),
        ]
    );
}

#[test]
fn geometry_comes_from_the_configuration_and_the_environment() {
    let p = DeepSeekV41WeightLoader.load_layers(&store(), &config(), &env(), 6).unwrap();
    assert_eq!((p.attn.max_seq, p.attn.max_tokens, p.moe.max_tokens), (100, 100, 100));
    assert_eq!((p.attn.cand_topk_blocks, p.attn.cand_block, p.cand_src), (2048, 8, 1));
    assert_eq!(p.attn.groups, 1);
    assert_eq!(f32::from_bits(p.attn.rope_factor), 16.0);
    assert_eq!(f32::from_bits(p.attn.beta_fast), 32.0);
    assert_eq!(f32::from_bits(p.attn.beta_slow), 1.0);
    assert_eq!(p.attn.orig_seq, 65536);
    assert_eq!(f32::from_bits(p.moe.gate_temp), 1.0);
    assert_eq!((p.moe.n_routed, p.moe.topk, p.moe.inter), (6, 2, 256));
    assert_eq!((p.cache_bytes, p.reader_threads, p.sinkhorn_iters), (88usize << 30, 8, 1));
    let c = ModelConfig {
        candidate_source_layer_id: None,
        candidate_topk_blocks: 3,
        candidate_block_size: 4,
        yarn_factor: 4.0f32.to_bits(),
        yarn_original_max_position_embeddings: 9,
        hc_sinkhorn_iters: 20,
        max_position_embeddings: 0,
        o_groups: 2,
        ..config()
    };
    let e = LoadEnv {
        max_seq: text("50"),
        max_tokens: text("10"),
        cache_gib: text("2"),
        reader_threads: text("x"),
        candidate_source: text("2"),
    };
    let p = DeepSeekV41WeightLoader.load_layers(&store(), &c, &e, 6).unwrap();
    assert_eq!((p.attn.max_seq, p.attn.max_tokens), (1, 1));
    assert_eq!((p.attn.cand_topk_blocks, p.attn.cand_block, p.cand_src), (3, 4, 2));
    assert_eq!((p.attn.groups, p.attn.orig_seq), (2, 9));
    assert_eq!(f32::from_bits(p.attn.rope_factor), 4.0);
    assert_eq!((p.cache_bytes, p.reader_threads, p.sinkhorn_iters), (2usize << 30, 8, 20));
    let p = DeepSeekV41WeightLoader
        .load_layers(&store(), &ModelConfig { candidate_source_layer_id: None, ..config() }, &env(), 6)
        .unwrap();
    assert_eq!(p.cand_src, 20);
}

#[test]
fn sizes_that_overflow_are_told() {
    assert!(load_fits(&config(), &env()));
    assert!(tensors_fit(&config()));
    let c = ModelConfig { hidden_size: usize::MAX / 2, ..config() };
    assert!(!load_fits(&c, &env()));
    assert!(!tensors_fit(&c));
    assert!(!load_fits(&ModelConfig { hc_mult: 5, ..config() }, &env()));
    assert!(!tensors_fit(&ModelConfig { hc_mult: 0, ..config() }));
}

#[test]
fn shared_buffers_have_their_sizes() {
    let p = DeepSeekV41WeightLoader.load_layers(&store(), &config(), &env(), 6).unwrap();
    assert_eq!(p.runtime.pre_prev, 100 * 4 * 4);
    assert_eq!(p.runtime.mixes_s, 100 * 24 * 4);
    assert_eq!(p.runtime.comb_s, 100 * 16 * 4);
    assert_eq!(p.runtime.attn_in, 100 * 16 * 2);
}

#[test]
fn a_plain_layer_asks_for_twenty_one_tensors() {
    let role = LayerRole::default();
    let r = layer_requests(&config(), role, 12);
    assert_eq!(r.len(), 21);
    assert_eq!(r[0].name, "model.layers.12.attn.attn_sink");
    assert_eq!(r[0].kind, TensorKind::F32 { expected: 2 });
    assert_eq!(r[8].name, "model.layers.12.ffn.gate.e_score_correction_bias");
    assert_eq!(r[8].kind, TensorKind::HostF32);
    for i in [1, 3, 4, 6, 7, 10, 11, 12] {
        assert_eq!(r[i].kind, TensorKind::Resident);
    }
    assert_eq!(r[13].name, "model.layers.12.hc_attn_fn");
    assert_eq!(r[13].kind, TensorKind::F32 { expected: 24 * 4 * 16 });
    assert_eq!(r[17].name, "model.layers.12.hc_ffn_base");
    assert_eq!(r[17].kind, TensorKind::F32 { expected: 24 });
    assert_eq!(r[18].kind, TensorKind::F32 { expected: 3 });
    assert_eq!(r[20].name, "model.layers.12.ffn_norm.weight");
}

#[test]
fn sources_ask_for_more() {
    let role = LayerRole { ratio: 2, is_kv_source: true, is_index_source: true, ..LayerRole::default() };
    let r = layer_requests(&config(), role, 1);
    let names: Vec<&str> = r[..7].iter().map(|t| t.name.as_str()).collect();
    assert_eq!(
        names,
        vec![
            "model.layers.1.compressor.norm.weight",
            "model.layers.1.compressor.wkv.weight",
            "model.layers.1.compressor.wgate.weight",
            "model.layers.1.indexer.wq_b.weight",
            "model.layers.1.indexer.proj.weight",
            "model.layers.1.indexer.wk.weight",
            "model.layers.1.indexer.k_norm.weight",
        ]
    );
    assert_eq!(r[1].kind, TensorKind::F32 { expected: 32 * 16 });
    assert_eq!(r.len(), 28);
    let role = LayerRole { ratio: 1, is_kv_source: true, ..LayerRole::default() };
    let r = layer_requests(&config(), role, 1);
    assert_eq!((r.len(), r[1].kind), (23, TensorKind::Bf16));
    let role = LayerRole { ratio: 2, is_index_source: true, ..LayerRole::default() };
    assert_eq!(layer_requests(&config(), role, 1).len(), 23);
}

fn answer(role: LayerRole) -> Vec<Fetched> {
    layer_requests(&config(), role, 1)
        .iter()
        .enumerate()
        .map(|(i, r)| match r.kind {
            TensorKind::Bf16 | TensorKind::F32 { .. } => Fetched::Device(DevicePtr(i as u64)),
            TensorKind::Resident => Fetched::Mat(ResidentMat::Q2K(DevicePtr(i as u64))),
            TensorKind::HostF32 => Fetched::Host(vec![7; 6]),
        })
        .collect()
}

#[test]
fn a_layer_is_made_of_its_tensors() {
    let role = LayerRole { ratio: 2, is_kv_source: true, is_index_source: true, ..LayerRole::default() };
    let w = assemble_layer(&config(), role, 1, &answer(role));
    let comp = w.attn.comp.unwrap();
    assert_eq!((comp.norm, comp.kv, comp.gate), (DevicePtr(0), DevicePtr(1), Some(DevicePtr(2))));
    let idx = w.attn.idx.unwrap();
    assert_eq!(
        (idx.wq_b, idx.weights_proj, idx.wk, idx.k_norm),
        (DevicePtr(3), DevicePtr(4), Some(DevicePtr(5)), Some(DevicePtr(6)))
    );
    assert_eq!((w.attn.sink, w.attn.wo_b), (DevicePtr(7), ResidentMat::Q2K(DevicePtr(14))));
    assert_eq!((w.moe.layer, w.moe.gate_bias.clone(), w.moe.gate_w), (1, vec![7; 6], DevicePtr(16)));
    assert_eq!(w.moe.shared_w2, ResidentMat::Q2K(DevicePtr(18)));
    assert_eq!((w.hc_attn.hc_fn, w.hc_ffn.hc_scale), (DevicePtr(20), DevicePtr(25)));
    assert_eq!((w.attn_norm, w.ffn_norm), (DevicePtr(26), DevicePtr(27)));
    let role = LayerRole { ratio: 1, is_kv_source: true, ..LayerRole::default() };
    let w = assemble_layer(&config(), role, 1, &answer(role));
    assert_eq!(w.attn.comp.unwrap().gate, None);
    assert!(w.attn.idx.is_none());
    let role = LayerRole { ratio: 2, is_index_source: true, ..LayerRole::default() };
    let w = assemble_layer(&config(), role, 1, &answer(role));
    assert!(w.attn.comp.is_none());
    assert_eq!(w.attn.idx.unwrap().wk, None);
    assert_eq!(w.attn.sink, DevicePtr(2));
}

#[test]
fn attention_runs_on_bf16_projections() {
    let role = LayerRole::default();
    let mut f = answer(role);
    for i in [1u64, 3, 4, 6, 7] {
        assert!(assemble_layer(&config(), role, 1, &f).attn.dense().is_none());
        f[i as usize] = Fetched::Mat(ResidentMat::Bf16(DevicePtr(i)));
    }
    let w = assemble_layer(&config(), role, 1, &f).attn.dense().unwrap();
    assert_eq!(
        (w.sink, w.wq_a, w.q_norm, w.wq_b, w.wkv, w.kv_norm, w.wo_a, w.wo_b),
        (
            DevicePtr(0),
            DevicePtr(1),
            DevicePtr(2),
            DevicePtr(3),
            DevicePtr(4),
            DevicePtr(5),
            DevicePtr(6),
            DevicePtr(7)
        )
    );
    assert_eq!((w.role, w.comp, w.idx), (role, None, None));
    f[7] = Fetched::Mat(ResidentMat::Q3K(DevicePtr(7)));
    let w = assemble_layer(&config(), role, 1, &f);
    assert_eq!(w.attn.wo_b, ResidentMat::Q3K(DevicePtr(7)));
    assert!(w.attn.dense().is_none());
}

#[test]
fn engram_and_bias_lengths_are_checked() {
    let r = engram_requests(3);
    assert_eq!(r.len(), 3);
    assert_eq!(r[0].name, "model.layers.3.engram.wq");
    assert_eq!(r[2].kind, TensorKind::Bf16);
    assert_eq!(check_engram_qk(3, 64, 64, &config()), Ok(()));
    assert_eq!(
        check_engram_qk(3, 64, 63, &config()),
        Err(LoadError::EngramQk { layer: 3, q: 64, k: 63, expected: 64 })
    );
    assert_eq!(check_gate_bias(2, 6, &config()), Ok(()));
    assert_eq!(check_gate_bias(2, 7, &config()), Err(LoadError::GateBias { layer: 2, held: 7 }));
}

#[test]
fn the_loader_names_what_is_outside_the_layers() {
    let l = DeepSeekV41WeightLoader;
    assert!(!l.supports_tp());
    assert_eq!(l.load_embedding(), "model.embed_tokens.weight");
    assert_eq!(l.load_final_norm(), "model.norm.weight");
    assert_eq!(l.load_lm_head(), "lm_head.weight");
    assert!(l.load_mtp_weights().is_none());
    assert_eq!(l.layer_kernels().len(), 6);
    assert_eq!(l.layer_kernels()[2], ("hc_v41", "hc_v41_mixes_dot"));
}
