use spark_model::bytes::{f32_bytes, i32_bytes};
use spark_model::device::{Arg, BlockFormat, Command, CommandQueue, DevicePtr, Dim3, Kernel};
use spark_model::moe::{
    expert_keys, ActivationBytes, ExpertSlot, MoeError, MoeV41, MoeV41Buffers, MoeV41Cfg, MoeV41LayerWeights,
    MoeV41Timing, ResidentMat,
};
use spark_model::moe_plan::{group_by_expert, PlanStep};
use spark_model::moe_route::{route_from_logits, routing_ready};

fn bits(v: &[f32]) -> Vec<u32> {
    v.iter().map(|x| x.to_bits()).collect()
}

fn cfg() -> MoeV41Cfg {
    MoeV41Cfg {
        dim: 256,
        inter: 512,
        n_routed: 6,
        topk: 2,
        gate_temp: 1.0f32.to_bits(),
        norm_topk_prob: true,
        route_scale: 2.5f32.to_bits(),
        swiglu_limit: 10.0f32.to_bits(),
        max_tokens: 20,
    }
}

fn act() -> ActivationBytes {
    ActivationBytes {
        tiled_dim: 9000,
        rows_dim: 8000,
        tiled_inter: 100,
        rows_inter: 200,
        row_inter: 576,
    }
}

fn buffers() -> MoeV41Buffers {
    let p = |i: u64| DevicePtr(0x1_0000 * (i + 1));
    MoeV41Buffers {
        logits: p(0),
        a_rows: p(1),
        a_q8: p(2),
        gate_out: p(3),
        up_out: p(4),
        h: p(5),
        h_q8: p(6),
        down_out: p(7),
        rows_dev: p(8),
        weight_dev: p(9),
        ptrs_dev: p(10),
        sg: p(11),
        su: p(12),
        sh: p(13),
        sd: p(14),
        acc: p(15),
        out: p(16),
    }
}

fn runtime() -> MoeV41 {
    MoeV41::new(cfg(), buffers(), act(), false)
}

fn weights() -> MoeV41LayerWeights {
    MoeV41LayerWeights {
        layer: 7,
        gate_w: DevicePtr(0x100_0000),
        gate_bias: vec![0; 6],
        shared_w1: ResidentMat::Bf16(DevicePtr(0x100_0001)),
        shared_w2: ResidentMat::Q3K(DevicePtr(0x100_0002)),
        shared_w3: ResidentMat::Q2K(DevicePtr(0x100_0003)),
    }
}

fn slots(n: usize) -> Vec<ExpertSlot> {
    (0..n as u64)
        .map(|i| ExpertSlot {
            gate: DevicePtr(0x200 + 3 * i),
            up: DevicePtr(0x201 + 3 * i),
            down: DevicePtr(0x202 + 3 * i),
        })
        .collect()
}

const X: DevicePtr = DevicePtr(0x300_0000);

#[test]
fn the_best_biased_scores_win_and_unbiased_ones_come_back() {
    let scores = bits(&[0.1, 0.9, 0.5, 0.3, 0.2, 0.4]);
    let biased = bits(&[2.0, 0.9, 0.5, 0.3, 1.0, 0.4]);
    let (w, i) = route_from_logits(&scores, &biased, 1, &cfg());
    assert_eq!(i, vec![0, 4]);
    assert_eq!(w, bits(&[0.1, 0.2]));
}

#[test]
fn equal_scores_go_to_the_lower_number() {
    let scores = bits(&[1.0, 3.0, 2.0, 3.0, 3.0, 0.0, 0.0, -0.0, 0.0, 0.0, -1.0, 0.0]);
    let (w, i) = route_from_logits(&scores, &scores, 2, &cfg());
    assert_eq!(i, vec![1, 3, 0, 1]);
    assert_eq!(w, bits(&[3.0, 3.0, 0.0, -0.0]));
}

#[test]
fn tables_that_cannot_be_ordered_are_told() {
    let scores = bits(&[0.1, 0.9, 0.5, 0.3, 0.2, 0.4]);
    assert!(routing_ready(&scores, &scores, 1, &cfg()));
    assert!(!routing_ready(&scores, &scores, 2, &cfg()));
    assert!(!routing_ready(&scores, &scores, 1, &MoeV41Cfg { topk: 7, ..cfg() }));
    let mut biased = scores.clone();
    biased[3] = f32::NAN.to_bits();
    assert!(!routing_ready(&scores, &biased, 1, &cfg()));
    let one = MoeV41Cfg { n_routed: 1, topk: 1, ..cfg() };
    assert!(routing_ready(&[7], &[f32::NAN.to_bits()], 1, &one));
    assert_eq!(route_from_logits(&[7], &[f32::NAN.to_bits()], 1, &one), (vec![7], vec![0]));
}

#[test]
fn the_order_is_descending() {
    let c = MoeV41Cfg { topk: 6, ..cfg() };
    let scores = bits(&[0.1, 0.9, 0.5, 0.3, 0.2, 0.4]);
    let (_, i) = route_from_logits(&scores, &scores, 1, &c);
    assert_eq!(i, vec![1, 2, 5, 3, 4, 0]);
}

#[test]
fn assignments_are_grouped_by_expert() {
    // tokens 0, 1, 2 with two experts each
    let (order, plan) = group_by_expert(&[3, 1, 1, 5, 3, 1], 6);
    assert_eq!(order, vec![1, 2, 5, 0, 4, 3]);
    assert_eq!(
        plan,
        vec![
            PlanStep { first: 1, offset: 0, rows: 3 },
            PlanStep { first: 0, offset: 3, rows: 2 },
            PlanStep { first: 3, offset: 5, rows: 1 },
        ]
    );
    assert_eq!(group_by_expert(&[], 6), (vec![], vec![]));
}

#[test]
fn a_single_token_has_one_row_per_expert() {
    let (order, plan) = group_by_expert(&[4, 2, 0], 6);
    assert_eq!(order, vec![2, 1, 0]);
    assert!(plan.iter().enumerate().all(|(i, s)| s.rows == 1 && s.offset == i));
}

#[test]
fn keys_carry_the_layer() {
    assert_eq!(expert_keys(7, &[3, 1]), vec![(7, 3), (7, 1)]);
}

#[test]
fn blocks_have_to_divide_the_widths() {
    let bad = MoeV41Cfg { dim: 255, ..cfg() };
    assert_eq!(MoeV41::plan(&bad, act()), Err(MoeError::Blocks { dim: 255, inter: 512 }));
    let bad = MoeV41Cfg { inter: 128, ..cfg() };
    assert_eq!(MoeV41::plan(&bad, act()), Err(MoeError::Blocks { dim: 256, inter: 128 }));
}

#[test]
fn expert_workspaces_have_their_sizes() {
    let l = MoeV41::plan(&cfg(), act()).unwrap();
    assert_eq!(l.logits, 20 * 6 * 4);
    assert_eq!(l.a_rows, 20 * 256 * 2);
    assert_eq!(l.a_q8, 9000);
    assert_eq!(l.h_q8, 200);
    assert_eq!(l.gate_out, 20 * 512 * 2);
    assert_eq!(l.rows_dev, 160);
    assert_eq!(l.ptrs_dev, 48);
    assert_eq!(l.acc, 20 * 256 * 4);
    assert!(cfg().is_representable());
    assert!(!MoeV41Cfg { topk: usize::MAX, ..cfg() }.is_representable());
    assert!(buffers().have_room(&l));
    assert!(!MoeV41Buffers { ptrs_dev: DevicePtr(u64::MAX), ..buffers() }.have_room(&l));
}

#[test]
fn the_router_has_two_arms() {
    let m = runtime();
    let w = weights();
    let mut q = CommandQueue::new();
    assert_eq!(m.route(&mut q, &w, X, 8), Ok(8 * 6 * 4));
    let args = |m: u32| {
        vec![
            Arg::Ptr(X),
            Arg::Ptr(w.gate_w),
            Arg::Ptr(buffers().logits),
            Arg::U32(m),
            Arg::U32(6),
            Arg::U32(256),
        ]
    };
    assert_eq!(
        q.commands,
        vec![
            Command::Launch {
                kernel: Kernel::MoeRouterGemv,
                grid: Dim3 { x: 1, y: 8, z: 1 },
                block: Dim3 { x: 64, y: 1, z: 1 },
                args: args(8),
            },
            Command::Synchronize,
        ]
    );
    let mut q = CommandQueue::new();
    assert_eq!(m.route(&mut q, &w, X, 9), Ok(9 * 6 * 4));
    assert_eq!(
        q.commands[0],
        Command::Launch {
            kernel: Kernel::DenseGemmBf16F32out,
            grid: Dim3 { x: 1, y: 1, z: 1 },
            block: Dim3 { x: 16, y: 16, z: 1 },
            args: args(9),
        }
    );
}

#[test]
fn more_tokens_than_workspaces_are_refused() {
    let m = runtime();
    for n in [0usize, 21] {
        let mut q = CommandQueue::new();
        assert_eq!(
            m.route(&mut q, &weights(), X, n),
            Err(MoeError::Tokens { m: n, max_tokens: 20 })
        );
        assert!(q.commands.is_empty());
    }
}

#[test]
fn logits_are_read_unless_the_bias_is_for_other_experts() {
    let m = runtime();
    let logits = bits(&[1.0, -2.0]);
    assert_eq!(m.read_logits(&weights(), &f32_bytes(&logits)), Ok(logits.clone()));
    let other = MoeV41LayerWeights { gate_bias: vec![0; 5], ..weights() };
    assert_eq!(
        m.read_logits(&other, &f32_bytes(&logits)),
        Err(MoeError::GateBias { held: 5, n_routed: 6 })
    );
}

#[test]
fn one_token_runs_all_its_experts_at_once() {
    let m = runtime();
    let b = buffers();
    let mut q = CommandQueue::new();
    let out = m.forward(&mut q, &weights(), X, 1, &bits(&[0.25, 0.75]), &[4, 1], &slots(2));
    assert_eq!(out, b.out);
    assert_eq!(m.out_ptr(), b.out);
    // expert 1 comes first, with the second weight
    assert_eq!(
        q.commands[..3],
        [
            Command::UploadAsync { data: i32_bytes(&[0, 0]), dst: b.rows_dev },
            Command::UploadAsync { data: f32_bytes(&bits(&[0.75, 0.25])), dst: b.weight_dev },
            Command::MemsetAsync { dst: b.acc, value: 0, bytes: 1024 },
        ]
    );
    let ptrs: Vec<u8> = [0x203u64, 0x200, 0x204, 0x201, 0x205, 0x202]
        .iter()
        .flat_map(|p| p.to_le_bytes())
        .collect();
    assert_eq!(q.commands[3], Command::UploadAsync { data: ptrs, dst: b.ptrs_dev });
    assert_eq!(
        q.commands[4],
        Command::Q8Rows { a: X, out: b.a_q8, rows: 1, k: 256 }
    );
    assert_eq!(
        q.commands[6],
        Command::MmvqExperts {
            format: BlockFormat::Q2K,
            table: DevicePtr(b.ptrs_dev.0 + 16),
            a: b.a_q8,
            out: b.up_out,
            n: 512,
            k: 256,
            rows: 1,
            experts: 2,
            a_stride: 0,
        }
    );
    assert_eq!(
        q.commands[7],
        Command::Launch {
            kernel: Kernel::MoeSwiglu,
            grid: Dim3 { x: 4, y: 1, z: 1 },
            block: Dim3 { x: 256, y: 1, z: 1 },
            args: vec![
                Arg::Ptr(b.gate_out),
                Arg::Ptr(b.up_out),
                Arg::Ptr(b.weight_dev),
                Arg::Ptr(b.h),
                Arg::U32(2),
                Arg::U32(512),
                Arg::F32(10.0f32.to_bits()),
            ],
        }
    );
    assert_eq!(
        q.commands[9],
        Command::MmvqExperts {
            format: BlockFormat::Q3K,
            table: DevicePtr(b.ptrs_dev.0 + 32),
            a: b.h_q8,
            out: b.down_out,
            n: 256,
            k: 512,
            rows: 1,
            experts: 2,
            a_stride: 576,
        }
    );
    // the shared expert: bf16, then Q2_K, the activation function, then Q3_K
    assert_eq!(
        q.commands[11],
        Command::DenseGemv { a: X, w: DevicePtr(0x100_0001), out: b.sg, n: 512, k: 256 }
    );
    assert_eq!(
        q.commands[12..14],
        [
            Command::Q8Rows { a: X, out: b.a_q8, rows: 1, k: 256 },
            Command::Mmvq {
                format: BlockFormat::Q2K,
                w: DevicePtr(0x100_0003),
                a: b.a_q8,
                out: b.su,
                n: 512,
                k: 256,
                rows: 1,
            },
        ]
    );
    assert_eq!(
        q.commands[15..17],
        [
            Command::Q8Rows { a: b.sh, out: b.h_q8, rows: 1, k: 512 },
            Command::Mmvq {
                format: BlockFormat::Q3K,
                w: DevicePtr(0x100_0002),
                a: b.h_q8,
                out: b.sd,
                n: 256,
                k: 512,
                rows: 1,
            },
        ]
    );
    assert_eq!(q.commands.len(), 19);
}

#[test]
fn each_expert_takes_one_turn_on_its_tokens() {
    let m = MoeV41 { timing_sync: true, ..runtime() };
    let b = buffers();
    // ten tokens, all of them to expert 2, and each to one more
    let indices: Vec<usize> = (0..10).flat_map(|t| [2, if t < 5 { 0 } else { 5 }]).collect();
    let w: Vec<u32> = (0..20).collect();
    let mut q = CommandQueue::new();
    m.forward(&mut q, &weights(), X, 10, &w, &indices, &slots(20));
    let order: Vec<i32> = [0, 1, 2, 3, 4].into_iter().chain(0..10).chain(5..10).collect();
    assert_eq!(
        q.commands[0],
        Command::UploadAsync { data: i32_bytes(&order), dst: b.rows_dev }
    );
    let w_order: Vec<u32> = [1, 3, 5, 7, 9]
        .into_iter()
        .chain((0..10).map(|t| 2 * t))
        .chain([11, 13, 15, 17, 19])
        .collect();
    assert_eq!(
        q.commands[1],
        Command::UploadAsync { data: f32_bytes(&w_order), dst: b.weight_dev }
    );
    // expert 0: five rows, row by row, with the weights of the slot of its first assignment
    assert_eq!(
        q.commands[5],
        Command::Mmvq {
            format: BlockFormat::Q2K,
            w: DevicePtr(0x200 + 3),
            a: b.a_q8,
            out: b.gate_out,
            n: 512,
            k: 256,
            rows: 5,
        }
    );
    // expert 2: ten rows, tiled, five rows into the lists
    assert_eq!(
        q.commands[11],
        Command::Launch {
            kernel: Kernel::MoeGatherRows,
            grid: Dim3 { x: 10, y: 1, z: 1 },
            block: Dim3 { x: 256, y: 1, z: 1 },
            args: vec![
                Arg::Ptr(X),
                Arg::Ptr(DevicePtr(b.rows_dev.0 + 20)),
                Arg::Ptr(b.a_rows),
                Arg::U32(256)
            ],
        }
    );
    assert_eq!(
        q.commands[12],
        Command::QuantizeAct { format: BlockFormat::Q2K, a: b.a_rows, out: b.a_q8, rows: 10, k: 256 }
    );
    assert_eq!(
        q.commands[14],
        Command::MmqGemm {
            format: BlockFormat::Q2K,
            a: b.a_q8,
            w: DevicePtr(0x201),
            out: b.up_out,
            rows: 10,
            n: 512,
            k: 256,
        }
    );
    // the shared expert on all rows
    assert_eq!(
        q.commands[27],
        Command::DenseGemm { a: X, w: DevicePtr(0x100_0001), c: b.sg, m: 10, n: 512, k: 256 }
    );
    assert_eq!(*q.commands.last().unwrap(), Command::Synchronize);
}

#[test]
fn counts_add_up() {
    let mut t = MoeV41Timing::default();
    let before = MoeV41Timing { hits: 5, misses: 1, bytes_read: 100 };
    let after = MoeV41Timing { hits: 9, misses: 4, bytes_read: 700 };
    let d = MoeV41Timing::between(&before, &after);
    assert_eq!(d, MoeV41Timing { hits: 4, misses: 3, bytes_read: 600 });
    t.add(&d);
    t.add(&before);
    assert_eq!(t, after);
}

#[test]
fn all_but_the_pointer_table_is_given_back() {
    let mut q = CommandQueue::new();
    runtime().free(&mut q);
    assert_eq!(q.commands.len(), 16);
    assert!(!q.commands.contains(&Command::Free { p: buffers().ptrs_dev }));
    assert_eq!(q.commands[3], Command::Free { p: buffers().rows_dev });
    assert_eq!(MoeV41::kernels().len(), 20);
}
