use spark_model::attn::{f32_table_bytes, AttnPending};
use spark_model::attn_cfg::{
    AttnError, AttnV41, AttnV41Buffers, AttnV41Cfg, AttnV41LayerState, AttnV41LayerWeights, CompressorWeightsGpu,
    IndexerWeightsGpu, LayerRole, SharedV41,
};
use spark_model::bytes::{f32_bytes, i32_bytes};
use spark_model::compress::{indexer, merge_index, CompressorState, IndexerCfg, SharedRuntime};
use spark_model::device::{at, div_up, kernel_source, Arg, Command, CommandQueue, DevicePtr, Dim3, Kernel, KernelModule};
use spark_model::window::write_window;

fn cfg() -> AttnV41Cfg {
    AttnV41Cfg {
        dim: 4,
        n_heads: 2,
        head_dim: 32,
        rope_dim: 8,
        q_rank: 6,
        o_rank: 3,
        groups: 2,
        window: 4,
        eps: 1e-6f32.to_bits(),
        index_heads: 2,
        index_hd: 32,
        index_topk: 2,
        cand_topk_blocks: 1,
        cand_block: 2,
        max_seq: 8,
        max_tokens: 6,
        rope_theta: 0,
        compress_rope_theta: 0,
        rope_factor: 0,
        orig_seq: 0,
        beta_fast: 0,
        beta_slow: 0,
    }
}

fn buffers() -> AttnV41Buffers {
    let p = |i: u64| DevicePtr(0x1_0000 * (i + 1));
    AttnV41Buffers {
        fc_plain: p(0),
        fc_yarn: p(1),
        qr_raw: p(2),
        qr: p(3),
        q: p(4),
        kv_raw: p(5),
        kv: p(6),
        o: p(7),
        o_rot: p(8),
        og: p(9),
        slice_in: p(10),
        slice_out: p(11),
        out: p(12),
        pos: p(13),
        head_pos: p(14),
        idx_pos: p(15),
        grp_pos: p(16),
        idx_dev: p(17),
        ckv: p(18),
        cscore: p(19),
        pooled: p(20),
        latent_raw: p(21),
        latent: p(22),
        ik_raw: p(23),
        ik: p(24),
        iq: p(25),
        iw_raw: p(26),
        iw: p(27),
        score: p(28),
    }
}

fn runtime() -> AttnV41 {
    let mut q = CommandQueue::new();
    AttnV41::new(&mut q, cfg(), buffers(), &[1, 2], &[3], 0x3E35_04F3, 0x3E00_0000)
}

fn state() -> AttnV41LayerState {
    let p = |i: u64| DevicePtr(0x100_0000 + 0x1_0000 * i);
    AttnV41LayerState {
        window: p(0),
        comp_state: Some((p(1), p(2))),
        compress_kv: Some(p(3)),
        index_k: Some(p(4)),
    }
}

fn weights(ratio: usize, source: bool) -> AttnV41LayerWeights {
    let p = |i: u64| DevicePtr(0x200_0000 + 0x1_0000 * i);
    AttnV41LayerWeights {
        role: LayerRole {
            ratio,
            is_kv_source: source,
            is_index_source: source,
            is_candidate_source: false,
            uses_candidates: false,
        },
        sink: p(0),
        wq_a: p(1),
        q_norm: p(2),
        wq_b: p(3),
        wkv: p(4),
        kv_norm: p(5),
        wo_a: p(6),
        wo_b: p(7),
        comp: Some(CompressorWeightsGpu {
            kv: p(8),
            gate: Some(p(9)),
            norm: p(10),
        }),
        idx: Some(IndexerWeightsGpu {
            wq_b: p(11),
            weights_proj: p(12),
            wk: Some(p(13)),
            k_norm: Some(p(14)),
        }),
    }
}

const X: DevicePtr = DevicePtr(0x300_0000);

fn bits(v: &[f32]) -> Vec<u32> {
    v.iter().map(|x| x.to_bits()).collect()
}

/// Carries out the transfers among `cmds` on a memory of bytes.
fn run_transfers(mem: &mut Vec<u8>, cmds: &[Command]) {
    for c in cmds {
        match c {
            Command::CopyD2d { src, dst, bytes } => {
                let part = mem[src.0 as usize..src.0 as usize + bytes].to_vec();
                mem[dst.0 as usize..dst.0 as usize + bytes].copy_from_slice(&part);
            }
            Command::Upload { data, dst } => {
                mem[dst.0 as usize..dst.0 as usize + data.len()].copy_from_slice(data);
            }
            Command::Memset { dst, value, bytes } => {
                mem[dst.0 as usize..dst.0 as usize + bytes].fill(*value);
            }
            _ => {}
        }
    }
}

#[test]
fn group_width_divides_the_heads() {
    assert_eq!(cfg().gw(), 32);
}

#[test]
fn unsupported_geometries_are_refused_in_order() {
    let bad = AttnV41Cfg { rope_dim: 7, groups: 3, head_dim: 31, ..cfg() };
    assert_eq!(AttnV41::plan(&bad), Err(AttnError::RopeDim { rope_dim: 7 }));
    let bad = AttnV41Cfg { rope_dim: 514, ..cfg() };
    assert_eq!(AttnV41::plan(&bad), Err(AttnError::RopeDim { rope_dim: 514 }));
    let bad = AttnV41Cfg { groups: 3, head_dim: 31, ..cfg() };
    assert_eq!(AttnV41::plan(&bad), Err(AttnError::HeadGroups));
    let bad = AttnV41Cfg { groups: 0, ..cfg() };
    assert_eq!(AttnV41::plan(&bad), Err(AttnError::HeadGroups));
    let bad = AttnV41Cfg { head_dim: 31, ..cfg() };
    assert_eq!(AttnV41::plan(&bad), Err(AttnError::HeadBlocks));
    let bad = AttnV41Cfg { index_hd: 16, ..cfg() };
    assert_eq!(AttnV41::plan(&bad), Err(AttnError::HeadBlocks));
    assert!(AttnV41::plan(&AttnV41Cfg { rope_dim: 512, ..cfg() }).is_ok());
}

#[test]
fn workspaces_have_their_sizes() {
    let l = AttnV41::plan(&cfg()).unwrap();
    assert_eq!(l.qr, 6 * 6 * 2);
    assert_eq!(l.q, 6 * 2 * 32 * 2);
    assert_eq!(l.kv, 6 * 32 * 2);
    assert_eq!(l.og, 6 * 2 * 3 * 2);
    assert_eq!(l.slice_in, 6 * 32 * 2);
    assert_eq!(l.slice_out, 6 * 3 * 2);
    assert_eq!(l.out, 6 * 4 * 2);
    assert_eq!(l.pos, 24);
    assert_eq!(l.head_pos, 48);
    assert_eq!(l.idx_dev, 6 * 6 * 4);
    assert_eq!(l.ckv, 6 * 32 * 4);
    assert_eq!(l.iq, 6 * 2 * 32 * 2);
    assert_eq!(l.iw, 6 * 2 * 2);
    assert_eq!(l.score, 6 * 8 * 4);
    // small ones are padded
    let tiny = AttnV41Cfg { max_tokens: 1, ..cfg() };
    assert_eq!(AttnV41::plan(&tiny).unwrap().pos, 16);
}

#[test]
fn representable_geometries_and_roomy_buffers_are_told() {
    assert!(cfg().is_representable());
    assert!(!AttnV41Cfg { max_tokens: usize::MAX, ..cfg() }.is_representable());
    assert!(!AttnV41Cfg { window: usize::MAX, ..cfg() }.is_representable());
    let l = AttnV41::plan(&cfg()).unwrap();
    assert!(buffers().have_room(&l));
    assert!(!AttnV41Buffers { score: DevicePtr(u64::MAX - 8), ..buffers() }.have_room(&l));
    let role = weights(2, true).role;
    let sl = AttnV41LayerState::layout(&cfg(), role);
    assert!(state().have_room(&sl));
    assert!(!AttnV41LayerState { index_k: None, ..state() }.have_room(&sl));
    assert!(state().has_room_for(&cfg(), 2));
    assert!(AttnV41LayerState { index_k: None, ..state() }.has_room_for(&cfg(), 2));
    assert!(!AttnV41LayerState { window: DevicePtr(u64::MAX), ..state() }.has_room_for(&cfg(), 2));
}

#[test]
fn tables_are_uploaded() {
    let mut q = CommandQueue::new();
    AttnV41::new(&mut q, cfg(), buffers(), &[1, 2], &[3], 0, 0);
    assert_eq!(
        q.commands,
        vec![
            Command::Upload { data: f32_bytes(&[1, 2]), dst: buffers().fc_plain },
            Command::Upload { data: f32_bytes(&[3]), dst: buffers().fc_yarn },
        ]
    );
    assert_eq!(f32_table_bytes(0), 4);
    assert_eq!(f32_table_bytes(5), 20);
}

#[test]
fn a_state_starts_empty_and_is_given_back_once() {
    let role = weights(2, true).role;
    let l = AttnV41LayerState::layout(&cfg(), role);
    assert_eq!(
        (l.window, l.comp_state, l.compress_kv, l.index_k),
        (4 * 32 * 2, Some(2 * 32 * 4), Some(4 * 32 * 2), Some(4 * 32 * 2))
    );
    let mut q = CommandQueue::new();
    let st = AttnV41LayerState::new(&mut q, &cfg(), role, state());
    assert_eq!(st, state());
    assert_eq!(q.commands.len(), 5);
    assert_eq!(
        q.commands[0],
        Command::Memset { dst: st.window, value: 0, bytes: 256 }
    );
    assert_eq!(
        q.commands[2],
        Command::Upload {
            data: f32_bytes(&[f32::NEG_INFINITY.to_bits(); 64]),
            dst: st.comp_state.unwrap().1
        }
    );
    let mut q = CommandQueue::new();
    st.free(&mut q);
    let (a, b) = state().comp_state.unwrap();
    let freed: Vec<Command> = [state().window, a, b, state().compress_kv.unwrap(), state().index_k.unwrap()]
        .into_iter()
        .map(|p| Command::Free { p })
        .collect();
    assert_eq!(q.commands, freed);
}

#[test]
fn a_layer_without_compressed_rows_has_only_its_ring() {
    let role = weights(0, false).role;
    let l = AttnV41LayerState::layout(&cfg(), role);
    assert_eq!((l.comp_state, l.compress_kv, l.index_k), (None, None, None));
    let ring = AttnV41LayerState { comp_state: None, compress_kv: None, index_k: None, ..state() };
    let mut q = CommandQueue::new();
    AttnV41LayerState::new(&mut q, &cfg(), role, ring);
    assert_eq!(q.commands.len(), 1);
    let mut q = CommandQueue::new();
    ring.free(&mut q);
    assert_eq!(q.commands, vec![Command::Free { p: ring.window }]);
}

#[test]
fn calls_outside_the_workspaces_are_refused() {
    let a = runtime();
    let mut shared = SharedV41::default();
    let w = weights(0, false);
    for (m, start, e) in [
        (0usize, 0usize, AttnError::Tokens { m: 0, max_tokens: 6 }),
        (7, 0, AttnError::Tokens { m: 7, max_tokens: 6 }),
        (2, 7, AttnError::Position { end: 9, max_seq: 8 }),
    ] {
        let mut q = CommandQueue::new();
        assert_eq!(a.forward(&mut q, &w, &state(), &mut shared, X, m, start), Err(e));
        assert!(q.commands.is_empty());
    }
}

#[test]
fn an_uncompressed_call_is_issued_in_order() {
    let a = runtime();
    let b = buffers();
    let w = weights(0, false);
    let st = state();
    let mut shared = SharedV41::default();
    let mut q = CommandQueue::new();
    let p = a.forward(&mut q, &w, &st, &mut shared, X, 2, 0).unwrap();
    assert_eq!(
        p,
        AttnPending { m: 2, start_pos: 0, rows_a: b.kv, rows_a_len: 2, groups: None, score_bytes: None }
    );
    assert_eq!(q.commands.len(), 12);
    assert_eq!(q.commands[0], Command::Upload { data: i32_bytes(&[0, 1]), dst: b.pos });
    assert_eq!(q.commands[1], Command::Upload { data: i32_bytes(&[0, 0, 1, 1]), dst: b.head_pos });
    assert_eq!(
        q.commands[2],
        Command::DenseGemm { a: X, w: w.wq_a, c: b.qr_raw, m: 2, n: 6, k: 4 }
    );
    assert_eq!(
        q.commands[3],
        Command::Launch {
            kernel: Kernel::AttnRmsnormBf16,
            grid: Dim3 { x: 2, y: 1, z: 1 },
            block: Dim3 { x: 256, y: 1, z: 1 },
            args: vec![
                Arg::Ptr(b.qr_raw),
                Arg::Ptr(w.q_norm),
                Arg::Ptr(b.qr),
                Arg::U32(6),
                Arg::F32(1e-6f32.to_bits())
            ],
        }
    );
    assert_eq!(
        q.commands[5],
        Command::Launch {
            kernel: Kernel::AttnRope,
            grid: Dim3 { x: 4, y: 1, z: 1 },
            block: Dim3 { x: 32, y: 1, z: 1 },
            args: vec![
                Arg::Ptr(b.q),
                Arg::Ptr(b.head_pos),
                Arg::Ptr(b.fc_plain),
                Arg::U32(32),
                Arg::U32(8),
                Arg::U32(0)
            ],
        }
    );
    assert_eq!(
        q.commands[9],
        Command::Launch {
            kernel: Kernel::AttnActQuantFp8,
            grid: Dim3 { x: 1, y: 1, z: 1 },
            block: Dim3 { x: 256, y: 1, z: 1 },
            args: vec![Arg::Ptr(b.kv), Arg::U32(2)],
        }
    );
    assert_eq!(q.commands[10], Command::Synchronize);
    assert_eq!(
        q.commands[11],
        Command::CopyD2d { src: b.kv, dst: st.window, bytes: 2 * 64 }
    );
    let mut q = CommandQueue::new();
    let run = a
        .finish(&mut q, &w, &st, &mut shared, p, &[], vec![0, -1, 0, 1], 2)
        .unwrap();
    assert_eq!((run.idx.clone(), run.topk), (vec![0, -1, 0, 1], 2));
    assert_eq!((run.rows_b, run.rows_b_len), (None, 0));
    assert_eq!((run.q, run.o, run.out), (b.q, b.o, b.out));
    // upload, attention, wait, copy, inverse rotation, two groups of three, output, wait
    assert_eq!(q.commands.len(), 13);
    assert_eq!(
        q.commands[0],
        Command::Upload { data: i32_bytes(&[0, -1, 0, 1]), dst: b.idx_dev }
    );
    assert_eq!(
        q.commands[1],
        Command::Launch {
            kernel: Kernel::AttnSparseAttn,
            grid: Dim3 { x: 2, y: 2, z: 1 },
            block: Dim3 { x: 256, y: 1, z: 1 },
            args: vec![
                Arg::Ptr(b.q),
                Arg::Ptr(b.kv),
                Arg::Ptr(b.kv),
                Arg::U32(2),
                Arg::Ptr(b.idx_dev),
                Arg::Ptr(w.sink),
                Arg::Ptr(b.o),
                Arg::U32(2),
                Arg::U32(32),
                Arg::U32(2),
                Arg::F32(0x3E35_04F3)
            ],
        }
    );
    assert_eq!(q.commands[3], Command::CopyD2d { src: b.o, dst: b.o_rot, bytes: 256 });
    // the second group of the output projection
    assert_eq!(
        q.commands[9],
        Command::DenseGemm {
            a: b.slice_in,
            w: DevicePtr(w.wo_a.0 + 3 * 32 * 2),
            c: b.slice_out,
            m: 2,
            n: 3,
            k: 32
        }
    );
    assert_eq!(
        q.commands[11],
        Command::DenseGemm { a: b.og, w: w.wo_b, c: b.out, m: 2, n: 4, k: 6 }
    );
}

#[test]
fn the_ring_on_the_device_is_the_ring_on_the_host() {
    let a = runtime();
    let b = buffers();
    let w = weights(0, false);
    let st = AttnV41LayerState { window: DevicePtr(0x1E_0000), ..state() };
    let mut shared = SharedV41::default();
    let mut mem = vec![0u8; 0x20_0000];
    let mut host = vec![0u32; 4 * 64];
    let mut start = 0usize;
    for m in [6usize, 1, 1] {
        // the rows of the call, one byte per value of the host's ring
        let rows: Vec<u8> = (0..m * 64).map(|i| (start * 31 + i) as u8).collect();
        mem[b.kv.0 as usize..b.kv.0 as usize + rows.len()].copy_from_slice(&rows);
        let mut q = CommandQueue::new();
        a.forward(&mut q, &w, &st, &mut shared, X, m, start).unwrap();
        run_transfers(&mut mem, &q.commands);
        let wide: Vec<u32> = rows.iter().map(|&x| x as u32).collect();
        write_window(&mut host, &wide, m, start, 4, 64);
        let ring: Vec<u32> = mem[st.window.0 as usize..st.window.0 as usize + 256]
            .iter()
            .map(|&x| x as u32)
            .collect();
        assert_eq!(ring, host);
        start += m;
    }
}

#[test]
fn the_partial_group_on_the_device_is_the_one_on_the_host() {
    let a = runtime();
    let b = buffers();
    let w = weights(2, true);
    let st = AttnV41LayerState {
        window: DevicePtr(0x1E_0000),
        comp_state: Some((DevicePtr(0x1E_1000), DevicePtr(0x1E_2000))),
        compress_kv: Some(DevicePtr(0x1E_3000)),
        index_k: Some(DevicePtr(0x1E_4000)),
    };
    let mut shared = SharedV41::default();
    let mut mem = vec![0u8; 0x20_0000];
    let mut host = CompressorState::new(2, 128);
    host.score_state = vec![0; 256];
    let mut start = 0usize;
    for m in [3usize, 1, 1] {
        let rows: Vec<u8> = (0..m * 128).map(|i| (start * 17 + i) as u8).collect();
        let scores: Vec<u8> = (0..m * 128).map(|i| (start * 29 + 3 * i) as u8).collect();
        mem[b.ckv.0 as usize..b.ckv.0 as usize + rows.len()].copy_from_slice(&rows);
        mem[b.cscore.0 as usize..b.cscore.0 as usize + rows.len()].copy_from_slice(&scores);
        let mut q = CommandQueue::new();
        a.forward(&mut q, &w, &st, &mut shared, X, m, start).unwrap();
        run_transfers(&mut mem, &q.commands);
        let wide: Vec<u32> = rows.iter().map(|&x| x as u32).collect();
        let wide_scores: Vec<u32> = scores.iter().map(|&x| x as u32).collect();
        spark_model::compress::compressor(&wide, &wide_scores, m, start, 2, 128, &mut host);
        let read = |p: usize| -> Vec<u32> { mem[p..p + 256].iter().map(|&x| x as u32).collect() };
        assert_eq!(read(0x1E_1000), host.kv_state);
        assert_eq!(read(0x1E_2000), host.score_state);
        start += m;
    }
}

#[test]
fn the_latents_on_the_device_stand_in_order() {
    let a = runtime();
    let b = buffers();
    let w = weights(2, true);
    let st = AttnV41LayerState {
        window: DevicePtr(0x1E_0000),
        comp_state: Some((DevicePtr(0x1E_1000), DevicePtr(0x1E_2000))),
        compress_kv: Some(DevicePtr(0x1E_3000)),
        index_k: Some(DevicePtr(0x1E_4000)),
    };
    let mut shared = SharedV41::default();
    let mut mem = vec![0u8; 0x20_0000];
    let mut all: Vec<u8> = Vec::new();
    let mut start = 0usize;
    for m in [5usize, 1, 1, 1] {
        let mut q = CommandQueue::new();
        let p = a.forward(&mut q, &w, &st, &mut shared, X, m, start).unwrap();
        run_transfers(&mut mem, &q.commands);
        if let Some(groups) = p.groups {
            let rows: Vec<u8> = (0..groups * 64).map(|i| (start * 13 + 5 * i) as u8).collect();
            mem[b.latent.0 as usize..b.latent.0 as usize + rows.len()].copy_from_slice(&rows);
            all.extend(rows);
        }
        let score = f32_bytes(&vec![0u32; p.score_bytes.unwrap() / 4]);
        let mut q = CommandQueue::new();
        a.finish(&mut q, &w, &st, &mut shared, p, &score, vec![0; m], 1).unwrap();
        run_transfers(&mut mem, &q.commands);
        start += m;
        assert_eq!(all.len(), start / 2 * 64);
        assert_eq!(mem[0x1E_3000..0x1E_3000 + all.len()], all[..]);
    }
}

#[test]
fn a_source_publishes_its_own_count() {
    let a = runtime();
    let mut shared = SharedV41::default();
    let run = |shared: &mut SharedV41, ratio: usize, at: u64, m: usize, start: usize| {
        let w = weights(ratio, true);
        let st = AttnV41LayerState { compress_kv: Some(DevicePtr(at)), ..state() };
        let mut q = CommandQueue::new();
        let p = a.forward(&mut q, &w, &st, shared, X, m, start).unwrap();
        assert_eq!((shared.compress_kv, shared.compress_len), (st.compress_kv, start / ratio));
        let score = f32_bytes(&vec![0u32; p.score_bytes.unwrap_or(0) / 4]);
        a.finish(&mut q, &w, &st, shared, p, &score, vec![0; m], 1).unwrap();
        assert_eq!((shared.compress_kv, shared.compress_len), (st.compress_kv, (start + m) / ratio));
    };
    run(&mut shared, 1, 0x400_0000, 4, 0);
    assert_eq!(shared.compress_len, 4);
    run(&mut shared, 2, 0x500_0000, 4, 0);
    assert_eq!((shared.compress_kv, shared.compress_len), (Some(DevicePtr(0x500_0000)), 2));
    run(&mut shared, 1, 0x400_0000, 1, 4);
    assert_eq!(shared.compress_len, 5);
    run(&mut shared, 2, 0x500_0000, 1, 4);
    assert_eq!(shared.compress_len, 2);
    run(&mut shared, 2, 0x500_0000, 1, 5);
    assert_eq!(shared.compress_len, 3);
    // a source whose first group is still filling up holds none
    run(&mut shared, 4, 0x600_0000, 3, 0);
    assert_eq!((shared.compress_kv, shared.compress_len), (Some(DevicePtr(0x600_0000)), 0));
}

#[test]
fn a_source_layer_compresses_scores_and_selects() {
    let a = runtime();
    let b = buffers();
    let w = weights(2, true);
    let st = state();
    let mut shared = SharedV41::default();
    let mut q = CommandQueue::new();
    let p = a.forward(&mut q, &w, &st, &mut shared, X, 5, 0).unwrap();
    assert_eq!(p.groups, Some(2));
    assert_eq!(p.score_bytes, Some(5 * 2 * 4));
    assert_eq!(shared.compress_kv, st.compress_kv);
    assert_eq!(shared.index_k, st.index_k);
    // the index keys go to the front of their cache
    assert!(q.commands.contains(&Command::CopyD2d {
        src: b.ik,
        dst: st.index_k.unwrap(),
        bytes: 2 * 32 * 2
    }));
    let score = f32_bytes(&bits(&[1.0, 2.0, 1.0, 2.0, 1.0, 2.0, 1.0, 2.0, 1.0, 2.0]));
    assert!(a.selection_ready(&w, &shared, &p, &score));
    assert!(!a.selection_ready(&w, &shared, &p, &score[4..]));
    assert!(a.finish_ready(&w, &st, &shared, &p, &score, &[0, 1, 2, 3, 4], 1));
    assert!(!a.finish_ready(&w, &st, &shared, &p, &score, &[0, 1, 2, 3], 1));
    assert!(!a.finish_ready(&w, &st, &shared, &p, &score[4..], &[0, 1, 2, 3, 4], 1));
    let mut q = CommandQueue::new();
    let run = a
        .finish(&mut q, &w, &st, &mut shared, p, &score, vec![0, 1, 2, 3, 4], 1)
        .unwrap();
    assert_eq!(run.topk, 3);
    assert_eq!(run.idx, vec![0, -1, -1, 1, 5, -1, 2, 5, -1, 3, 5, 6, 4, 5, 6]);
    assert_eq!((run.rows_b, run.rows_b_len), (st.compress_kv, 2));
    assert_eq!(shared.topk_idxs, vec![-1, -1, 5, -1, 5, -1, 5, 6, 5, 6]);
    assert_eq!((shared.topk, shared.compress_len), (2, 2));
    assert_eq!(q.commands[0], Command::Upload { data: i32_bytes(&[0, 2]), dst: b.grp_pos });
    assert!(q.commands.contains(&Command::CopyD2d {
        src: b.latent,
        dst: st.compress_kv.unwrap(),
        bytes: 2 * 64
    }));
    // the decode that completes the third group goes behind them
    let mut q = CommandQueue::new();
    let p = a.forward(&mut q, &w, &st, &mut shared, X, 1, 5).unwrap();
    assert_eq!((p.groups, p.rows_a, p.rows_a_len), (Some(1), st.window, 4));
    let score = f32_bytes(&bits(&[3.0, 1.0, 2.0]));
    let mut q = CommandQueue::new();
    let run = a.finish(&mut q, &w, &st, &mut shared, p, &score, vec![2, 3], 2).unwrap();
    assert_eq!(run.idx, vec![2, 3, 4, 6]);
    assert_eq!(shared.compress_len, 3);
    assert!(q.commands.contains(&Command::CopyD2d {
        src: b.latent,
        dst: DevicePtr(st.compress_kv.unwrap().0 + 2 * 64),
        bytes: 64
    }));
    // the decode after it completes none
    let mut q = CommandQueue::new();
    let p = a.forward(&mut q, &w, &st, &mut shared, X, 1, 6).unwrap();
    assert_eq!(p.groups, None);
    assert_eq!(p.score_bytes, Some(12));
}

#[test]
fn device_and_host_attend_the_same_positions() {
    let a = runtime();
    let w = weights(1, true);
    let st = state();
    let c = cfg();
    let ic = IndexerCfg {
        n_heads: c.index_heads,
        index_hd: c.index_hd,
        rope_dim: c.rope_dim,
        q_rank: c.q_rank,
        dim: c.dim,
        hd: c.head_dim,
        index_topk: c.index_topk,
        cand_topk_blocks: c.cand_topk_blocks,
        cand_block: c.cand_block,
        eps: c.eps,
    };
    let mut device = SharedV41::default();
    let mut host = SharedRuntime::default();
    for (m, start) in [(5usize, 0usize), (1, 5), (1, 6)] {
        let width = start + m;
        let offset = if start == 0 { m } else { c.window };
        let scores: Vec<u32> = (0..m * width)
            .map(|i| (((i * 37 + start * 11) % 17) as f32 - 8.0).to_bits())
            .collect();
        let p = a.forward(&mut CommandQueue::new(), &w, &st, &mut device, X, m, start).unwrap();
        let window_idx: Vec<i32> = (0..m as i32).collect();
        let raw = f32_bytes(&scores);
        let run = a
            .finish(&mut CommandQueue::new(), &w, &st, &mut device, p, &raw, window_idx.clone(), 1)
            .unwrap();
        let (idx, topk) = indexer(&scores, m, start, offset, 1, &ic, &mut host, false, false);
        assert_eq!(run.topk, 1 + topk);
        assert_eq!(run.idx, merge_index(&window_idx, 1, &idx, topk, m));
        assert_eq!(device.topk_idxs, idx);
    }
}

#[test]
fn a_layer_between_sources_reuses_the_selection() {
    let a = runtime();
    let w = weights(2, false);
    let st = state();
    let mut shared = SharedV41 {
        compress_kv: Some(DevicePtr(0x77)),
        topk_idxs: vec![4, -1],
        topk: 1,
        ..SharedV41::default()
    };
    let mut q = CommandQueue::new();
    let p = a.forward(&mut q, &w, &st, &mut shared, X, 2, 2).unwrap();
    assert_eq!((p.groups, p.score_bytes), (None, None));
    let mut q = CommandQueue::new();
    let run = a.finish(&mut q, &w, &st, &mut shared, p, &[], vec![0, 1], 1).unwrap();
    assert_eq!(run.idx, vec![0, 4, 1, -1]);
    assert_eq!((run.rows_b, run.rows_b_len), (Some(DevicePtr(0x77)), 2));
}

#[test]
fn before_the_first_group_nothing_is_selected() {
    let a = runtime();
    let w = weights(2, true);
    let mut shared = SharedV41::default();
    let mut q = CommandQueue::new();
    let p = a.forward(&mut q, &w, &state(), &mut shared, X, 1, 0).unwrap();
    assert_eq!((p.groups, p.score_bytes), (None, None));
    let run = a
        .finish(&mut CommandQueue::new(), &w, &state(), &mut shared, p, &[], vec![0], 1)
        .unwrap();
    assert_eq!((run.idx, run.topk, run.rows_b_len), (vec![0], 1, 0));
}

#[test]
fn missing_weights_and_state_are_named() {
    let a = runtime();
    let full = weights(2, true);
    let forward = |w: &AttnV41LayerWeights, st: &AttnV41LayerState| {
        a.forward(&mut CommandQueue::new(), w, st, &mut SharedV41::default(), X, 2, 0)
    };
    let comp = full.comp.unwrap();
    let idx = full.idx.unwrap();
    assert_eq!(
        forward(&AttnV41LayerWeights { comp: None, ..full }, &state()),
        Err(AttnError::NoCompressorWeights)
    );
    assert_eq!(
        forward(
            &AttnV41LayerWeights { comp: Some(CompressorWeightsGpu { gate: None, ..comp }), ..full },
            &state()
        ),
        Err(AttnError::NoGate)
    );
    assert_eq!(
        forward(&full, &AttnV41LayerState { comp_state: None, ..state() }),
        Err(AttnError::NoCompressorState)
    );
    assert_eq!(
        forward(&AttnV41LayerWeights { idx: None, ..full }, &state()),
        Err(AttnError::NoIndexerWeights)
    );
    assert_eq!(
        forward(
            &AttnV41LayerWeights { idx: Some(IndexerWeightsGpu { wk: None, ..idx }), ..full },
            &state()
        ),
        Err(AttnError::NoIndexWk)
    );
    assert_eq!(
        forward(
            &AttnV41LayerWeights { idx: Some(IndexerWeightsGpu { k_norm: None, ..idx }), ..full },
            &state()
        ),
        Err(AttnError::NoIndexKNorm)
    );
    let reader = AttnV41LayerWeights {
        role: LayerRole { is_kv_source: false, ..full.role },
        ..full
    };
    assert_eq!(forward(&reader, &state()), Err(AttnError::NoIndexKeys));
}

#[test]
fn what_does_not_fit_together_is_refused() {
    let a = runtime();
    let st = state();
    // a kv source whose state has no latent cache
    let w = weights(2, true);
    let bare = AttnV41LayerState { compress_kv: None, ..st };
    let mut shared = SharedV41::default();
    let p = a.forward(&mut CommandQueue::new(), &w, &bare, &mut shared, X, 2, 0).unwrap();
    let score = f32_bytes(&bits(&[1.0, 1.0]));
    let r = a.finish(&mut CommandQueue::new(), &w, &bare, &mut shared, p, &score, vec![0, 1], 1);
    assert_eq!(r, Err(AttnError::NoLatentCache));
    // a compressed layer before any source
    let w = weights(2, false);
    let mut shared = SharedV41::default();
    let p = a.forward(&mut CommandQueue::new(), &w, &st, &mut shared, X, 2, 0).unwrap();
    let r = a.finish(&mut CommandQueue::new(), &w, &st, &mut shared, p, &[], vec![0, 1], 1);
    assert_eq!(r, Err(AttnError::NoCompressedRows));
    // a selection for another number of queries
    let mut shared = SharedV41 {
        compress_kv: Some(DevicePtr(1)),
        topk_idxs: vec![0, 1, 2],
        topk: 1,
        ..SharedV41::default()
    };
    let r = a.finish(&mut CommandQueue::new(), &w, &st, &mut shared, p, &[], vec![0, 1], 1);
    assert_eq!(r, Err(AttnError::IndexSelection { held: 3, m: 2, topk: 1 }));
    // more positions than the workspace holds
    let w = weights(0, false);
    let r = a.finish(&mut CommandQueue::new(), &w, &st, &mut shared, p, &[], vec![0; 14], 7);
    assert_eq!(r, Err(AttnError::Topk { topk: 7 }));
    // a candidate mask for another call
    let full = weights(1, true);
    let w = AttnV41LayerWeights {
        role: LayerRole { uses_candidates: true, ..full.role },
        ..full
    };
    let mut shared = SharedV41 { candidates: vec![true; 3], ..SharedV41::default() };
    let p = a.forward(&mut CommandQueue::new(), &w, &st, &mut shared, X, 2, 0).unwrap();
    let mut q = CommandQueue::new();
    let r = a.finish(&mut q, &w, &st, &mut shared, p, &f32_bytes(&[0; 4]), vec![0, 1], 1);
    assert_eq!(r, Err(AttnError::CandidateMask { held: 3, m: 2, width: 2 }));
    assert!(q.commands.is_empty());
}

#[test]
fn a_candidate_source_publishes_its_mask() {
    let a = runtime();
    let full = weights(1, true);
    let w = AttnV41LayerWeights {
        role: LayerRole { is_candidate_source: true, ..full.role },
        ..full
    };
    let mut shared = SharedV41::default();
    let p = a.forward(&mut CommandQueue::new(), &w, &state(), &mut shared, X, 1, 3).unwrap();
    let score = f32_bytes(&bits(&[4.0, 3.0, 2.0, 1.0]));
    let run = a
        .finish(&mut CommandQueue::new(), &w, &state(), &mut shared, p, &score, vec![0], 1)
        .unwrap();
    assert_eq!(run.idx, vec![0, 4, 5]);
    assert_eq!(shared.candidates, vec![false, false, true, true]);
    assert_eq!(shared.cand_width, 4);
}

#[test]
fn group_positions_are_the_first_of_each_group() {
    assert_eq!(AttnV41::group_positions(3, 2, 0), vec![0, 2, 4]);
    assert_eq!(AttnV41::group_positions(1, 2, 7), vec![6]);
}

#[test]
fn every_buffer_is_given_back_once() {
    let mut q = CommandQueue::new();
    runtime().free(&mut q);
    let mut freed: Vec<u64> = q
        .commands
        .iter()
        .map(|c| match c {
            Command::Free { p } => p.0,
            _ => 0,
        })
        .collect();
    freed.sort();
    freed.dedup();
    assert_eq!(freed.len(), 29);
    assert!(!freed.contains(&0));
    assert_eq!(q.commands.len(), 29);
}

#[test]
fn kernels_are_found_by_name() {
    assert_eq!(AttnV41::kernels().len(), 13);
    assert_eq!(kernel_source(Kernel::DenseGemmBf16), (KernelModule::Gemm, "dense_gemm_bf16"));
    assert_eq!(kernel_source(Kernel::AttnPool), (KernelModule::Attn, "attn_v41_pool"));
}

#[test]
fn small_helpers() {
    assert_eq!(div_up(17, 8), 3);
    assert_eq!(div_up(16, 8), 2);
    assert_eq!(div_up(0, 8), 0);
    assert_eq!(div_up(u32::MAX, 1), u32::MAX);
    assert_eq!(at(DevicePtr(10), 5), DevicePtr(15));
    assert_eq!(LayerRole::default().ratio, 0);
}
