//! What commands compute: a buffer's value as the expression that its last
//! command made of the values before it.
//!
//! A store gives the value at each address. Carrying a command out puts a new
//! value at the address that the command writes to. A launch counts only where
//! its grid covers all that it is to compute. Caches that outlive a call are
//! written piece by piece; for what they hold see [`crate::device_memory`].

use crate::device::{div_up_of, Arg, BlockFormat, CommandView, DevicePtr, Dim3, Kernel};
use vstd::prelude::*;

verus! {

/// The value of a buffer.
pub enum Value {
    /// what an address held to begin with
    Given(DevicePtr),
    /// uploaded bytes
    Data(Seq<u8>),
    /// so many times the same byte
    Filled(u8, int),
    /// the first bytes of another buffer
    Copied { of: Box<Value>, bytes: int },
    /// `a[m, k] . w[n, k]`, to bf16
    Product { a: Box<Value>, w: Box<Value>, m: u32, n: u32, k: u32 },
    /// `a[m, k] . w[n, k]`, to f32
    ProductF32 { a: Box<Value>, w: Box<Value>, m: u32, n: u32, k: u32 },
    /// RMSNorm of bf16 rows, or of f32 rows
    Normed { wide: bool, x: Box<Value>, w: Box<Value>, rows: u32, dim: u32, eps: u32 },
    /// rows rotated to positions, or back
    Rotated {
        x: Box<Value>,
        pos: Box<Value>,
        table: Box<Value>,
        rows: u32,
        row_len: u32,
        rope_dim: u32,
        inverse: bool,
    },
    /// the fp8 round trip of blocks of 32
    Fp8 { x: Box<Value>, blocks: u32 },
    /// the fp4 round trip of blocks, with e4m3 or e8m0 scales
    Fp4 { x: Box<Value>, blocks: u32, block: u32, e4m3: bool },
    /// groups of rows, each pooled into one by its scores
    Pooled { kv: Box<Value>, score: Box<Value>, groups: u32, ratio: u32, hd: u32 },
    /// values times a factor
    Scaled { x: Box<Value>, n: u32, by: u32 },
    /// the scores of all keys, for each query
    Scores { q: Box<Value>, keys: DevicePtr, weights: Box<Value>, queries: u32, width: u32, heads: u32, hd: u32 },
    /// sparse attention with a sink: positions below `split` are rows of the
    /// first table, the others of the second
    Attended {
        q: Box<Value>,
        rows_a: Box<Value>,
        rows_b: DevicePtr,
        split: u32,
        idx: Box<Value>,
        sink: Box<Value>,
        queries: u32,
        heads: u32,
        hd: u32,
        topk: u32,
        scale: u32,
    },
    /// columns of a table
    Columns { x: Box<Value>, rows: u32, stride: u32, from: u32, width: u32 },
    /// a table with columns replaced
    Placed { into: Box<Value>, part: Box<Value>, rows: u32, stride: u32, from: u32, width: u32 },
    /// rows of a table, by a list of their numbers
    Gathered { x: Box<Value>, list: DevicePtr, rows: u32, dim: u32 },
    /// a table with rows added to those that a list names
    Added { to: Box<Value>, part: Box<Value>, list: DevicePtr, rows: u32, dim: u32 },
    /// rows as a quantised product takes them one by one
    Q8 { x: Box<Value>, rows: u32, k: u32 },
    /// rows as a quantised product takes them in tiles
    Tiled { format: BlockFormat, x: Box<Value>, rows: u32, k: u32 },
    /// `x[rows, k] . w[n, k]` with `w` in blocks
    BlockProduct { format: BlockFormat, w: DevicePtr, x: Box<Value>, rows: u32, n: u32, k: u32 },
    /// one such product per expert, `w` by a table of pointers: of the same
    /// rows, or of a row for each, `stride` bytes apart
    ExpertProducts {
        format: BlockFormat,
        table: DevicePtr,
        x: Box<Value>,
        rows: u32,
        n: u32,
        k: u32,
        experts: u32,
        stride: u32,
    },
    /// the gated activation function, times a weight per row where there are any
    Gated { gate: Box<Value>, up: Box<Value>, weights: DevicePtr, rows: u32, inter: u32, limit: u32 },
    /// two tables added up
    Summed { a: Box<Value>, b: Box<Value>, n: u32 },
    /// f32 values to bf16
    Narrowed { x: Box<Value>, n: u32 },
    /// nothing that can be told
    Unknown,
}

/// The `i`-th argument, an address.
pub open spec fn ptr_arg(args: Seq<Arg>, i: int) -> DevicePtr {
    args[i]->Ptr_0
}

/// The `i`-th argument, a number.
pub open spec fn num_arg(args: Seq<Arg>, i: int) -> u32 {
    args[i]->U32_0
}

/// The `i`-th argument, a float.
pub open spec fn float_arg(args: Seq<Arg>, i: int) -> u32 {
    args[i]->F32_0
}

/// One block per row or per row and head, each of a line of threads.
pub open spec fn is_row_wise(grid: Dim3, block: Dim3) -> bool {
    grid.z == 1 && block.x >= 32 && block.y == 1 && block.z == 1
}

/// There are threads for `x` by `y` values.
pub open spec fn covers(grid: Dim3, block: Dim3, x: int, y: int) -> bool {
    &&& grid.x * block.x >= x
    &&& grid.y * block.y >= y
    &&& grid.z == 1
    &&& block.z == 1
}

/// There is a warp for each of `n` quantiser blocks.
pub open spec fn covers_blocks(grid: Dim3, block: Dim3, n: int) -> bool {
    grid.x * (block.x as int / 32) >= n && is_row_wise(grid, block) && grid.y == 1
}

/// Where a launch writes.
pub open spec fn launch_target(kernel: Kernel, args: Seq<Arg>) -> DevicePtr {
    match kernel {
        Kernel::AttnRmsnormBf16 => ptr_arg(args, 2),
        Kernel::AttnRmsnormF32 => ptr_arg(args, 2),
        Kernel::AttnGemmF32 => ptr_arg(args, 2),
        Kernel::AttnPool => ptr_arg(args, 2),
        Kernel::AttnScaleBf16 => ptr_arg(args, 1),
        Kernel::AttnIndexScore => ptr_arg(args, 3),
        Kernel::AttnSparseAttn => ptr_arg(args, 6),
        Kernel::AttnSliceCols => ptr_arg(args, 1),
        Kernel::AttnScatterCols => ptr_arg(args, 1),
        Kernel::MoeRouterGemv => ptr_arg(args, 2),
        Kernel::DenseGemmBf16F32out => ptr_arg(args, 2),
        Kernel::MoeSwiglu => ptr_arg(args, 3),
        Kernel::MoeFinish => ptr_arg(args, 1),
        Kernel::MoeGatherRows => ptr_arg(args, 2),
        _ => ptr_arg(args, 0),
    }
}

/// What a launch writes.
pub open spec fn launch_value(
    kernel: Kernel,
    grid: Dim3,
    block: Dim3,
    args: Seq<Arg>,
    s: spec_fn(DevicePtr) -> Value,
) -> Value {
    let held = |i: int| Box::new(s(ptr_arg(args, i)));
    match kernel {
        Kernel::AttnRmsnormBf16 => if is_row_wise(grid, block) && grid.y == 1 {
            Value::Normed {
                wide: false,
                x: held(0),
                w: held(1),
                rows: grid.x,
                dim: num_arg(args, 3),
                eps: float_arg(args, 4),
            }
        } else {
            Value::Unknown
        },
        Kernel::AttnRmsnormF32 => if is_row_wise(grid, block) && grid.y == 1 {
            Value::Normed {
                wide: true,
                x: held(0),
                w: held(1),
                rows: grid.x,
                dim: num_arg(args, 3),
                eps: float_arg(args, 4),
            }
        } else {
            Value::Unknown
        },
        Kernel::AttnRope => if is_row_wise(grid, block) && grid.y == 1 && block.x >= num_arg(args, 4) / 2 {
            Value::Rotated {
                x: held(0),
                pos: held(1),
                table: held(2),
                rows: grid.x,
                row_len: num_arg(args, 3),
                rope_dim: num_arg(args, 4),
                inverse: num_arg(args, 5) != 0,
            }
        } else {
            Value::Unknown
        },
        Kernel::AttnActQuantFp8 => if covers_blocks(grid, block, num_arg(args, 1) as int) {
            Value::Fp8 { x: held(0), blocks: num_arg(args, 1) }
        } else {
            Value::Unknown
        },
        Kernel::AttnFp4Quant => if covers_blocks(grid, block, num_arg(args, 1) as int) {
            Value::Fp4 {
                x: held(0),
                blocks: num_arg(args, 1),
                block: num_arg(args, 2),
                e4m3: num_arg(args, 3) != 0,
            }
        } else {
            Value::Unknown
        },
        Kernel::AttnGemmF32 => if covers(grid, block, num_arg(args, 4) as int, num_arg(args, 3) as int) {
            Value::ProductF32 {
                a: held(0),
                w: held(1),
                m: num_arg(args, 3),
                n: num_arg(args, 4),
                k: num_arg(args, 5),
            }
        } else {
            Value::Unknown
        },
        Kernel::AttnPool => if is_row_wise(grid, block) && grid.y == 1 {
            Value::Pooled {
                kv: held(0),
                score: held(1),
                groups: grid.x,
                ratio: num_arg(args, 3),
                hd: num_arg(args, 4),
            }
        } else {
            Value::Unknown
        },
        Kernel::AttnScaleBf16 => if covers(grid, block, num_arg(args, 2) as int, 1) {
            Value::Scaled { x: held(0), n: num_arg(args, 2), by: float_arg(args, 3) }
        } else {
            Value::Unknown
        },
        Kernel::AttnIndexScore => if covers(grid, block, num_arg(args, 4) as int, 0) && block.y == 1 {
            Value::Scores {
                q: held(0),
                keys: ptr_arg(args, 1),
                weights: held(2),
                queries: grid.y,
                width: num_arg(args, 4),
                heads: num_arg(args, 5),
                hd: num_arg(args, 6),
            }
        } else {
            Value::Unknown
        },
        Kernel::AttnSparseAttn => if is_row_wise(grid, block) && grid.y == num_arg(args, 7) {
            Value::Attended {
                q: held(0),
                rows_a: held(1),
                rows_b: ptr_arg(args, 2),
                split: num_arg(args, 3),
                idx: held(4),
                sink: held(5),
                queries: grid.x,
                heads: num_arg(args, 7),
                hd: num_arg(args, 8),
                topk: num_arg(args, 9),
                scale: float_arg(args, 10),
            }
        } else {
            Value::Unknown
        },
        Kernel::AttnSliceCols => if is_row_wise(grid, block) && grid.y == 1 {
            Value::Columns {
                x: held(0),
                rows: grid.x,
                stride: num_arg(args, 2),
                from: num_arg(args, 3),
                width: num_arg(args, 4),
            }
        } else {
            Value::Unknown
        },
        Kernel::AttnScatterCols => if is_row_wise(grid, block) && grid.y == 1 {
            Value::Placed {
                into: held(1),
                part: held(0),
                rows: grid.x,
                stride: num_arg(args, 2),
                from: num_arg(args, 3),
                width: num_arg(args, 4),
            }
        } else {
            Value::Unknown
        },
        Kernel::MoeRouterGemv => if covers(grid, block, num_arg(args, 4) as int, num_arg(args, 3) as int) {
            Value::ProductF32 {
                a: held(0),
                w: held(1),
                m: num_arg(args, 3),
                n: num_arg(args, 4),
                k: num_arg(args, 5),
            }
        } else {
            Value::Unknown
        },
        Kernel::DenseGemmBf16F32out => if covers(grid, block, num_arg(args, 4) as int, num_arg(args, 3) as int) {
            Value::ProductF32 {
                a: held(0),
                w: held(1),
                m: num_arg(args, 3),
                n: num_arg(args, 4),
                k: num_arg(args, 5),
            }
        } else {
            Value::Unknown
        },
        Kernel::MoeSwiglu => if covers(grid, block, num_arg(args, 4) * num_arg(args, 5), 1) {
            Value::Gated {
                gate: held(0),
                up: held(1),
                weights: ptr_arg(args, 2),
                rows: num_arg(args, 4),
                inter: num_arg(args, 5),
                limit: float_arg(args, 6),
            }
        } else {
            Value::Unknown
        },
        Kernel::MoeAccumulate => if covers(grid, block, num_arg(args, 2) as int, 1) {
            Value::Summed { a: held(0), b: held(1), n: num_arg(args, 2) }
        } else {
            Value::Unknown
        },
        Kernel::MoeFinish => if covers(grid, block, num_arg(args, 2) as int, 1) {
            Value::Narrowed { x: held(0), n: num_arg(args, 2) }
        } else {
            Value::Unknown
        },
        Kernel::MoeGatherRows => if is_row_wise(grid, block) && grid.y == 1 {
            Value::Gathered { x: held(0), list: ptr_arg(args, 1), rows: grid.x, dim: num_arg(args, 3) }
        } else {
            Value::Unknown
        },
        Kernel::MoeScatterAdd => if is_row_wise(grid, block) && grid.y == 1 {
            Value::Added {
                to: held(0),
                part: held(1),
                list: ptr_arg(args, 2),
                rows: grid.x,
                dim: num_arg(args, 3),
            }
        } else {
            Value::Unknown
        },
        _ => Value::Unknown,
    }
}

/// A store with the value at one address replaced.
pub open spec fn put(s: spec_fn(DevicePtr) -> Value, p: DevicePtr, v: Value) -> spec_fn(DevicePtr) -> Value {
    |q: DevicePtr|
        if q == p {
            v
        } else {
            s(q)
        }
}

/// The store after a command.
pub open spec fn step(s: spec_fn(DevicePtr) -> Value, c: CommandView) -> spec_fn(DevicePtr) -> Value {
    match c {
        CommandView::Launch { kernel, grid, block, args } => put(
            s,
            launch_target(kernel, args),
            launch_value(kernel, grid, block, args, s),
        ),
        CommandView::DenseGemm { a, w, c, m, n, k } => put(
            s,
            c,
            Value::Product { a: Box::new(s(a)), w: Box::new(s(w)), m, n, k },
        ),
        CommandView::DenseGemv { a, w, out, n, k } => put(
            s,
            out,
            Value::Product { a: Box::new(s(a)), w: Box::new(s(w)), m: 1, n, k },
        ),
        CommandView::Q8Rows { a, out, rows, k } => put(s, out, Value::Q8 { x: Box::new(s(a)), rows, k }),
        CommandView::QuantizeAct { format, a, out, rows, k } => put(
            s,
            out,
            Value::Tiled { format, x: Box::new(s(a)), rows, k },
        ),
        CommandView::Mmvq { format, w, a, out, n, k, rows } => put(
            s,
            out,
            match s(a) {
                Value::Q8 { x, rows: r, k: d } => if r == rows && d == k {
                    Value::BlockProduct { format, w, x, rows, n, k }
                } else {
                    Value::Unknown
                },
                _ => Value::Unknown,
            },
        ),
        CommandView::MmvqExperts { format, table, a, out, n, k, rows, experts, a_stride } => put(
            s,
            out,
            match s(a) {
                Value::Q8 { x, rows: r, k: d } => if d == k && r == (if a_stride == 0 {
                    rows
                } else {
                    experts
                }) {
                    Value::ExpertProducts { format, table, x, rows, n, k, experts, stride: a_stride }
                } else {
                    Value::Unknown
                },
                _ => Value::Unknown,
            },
        ),
        CommandView::MmqGemm { format, a, w, out, rows, n, k } => put(
            s,
            out,
            match s(a) {
                Value::Tiled { format: f, x, rows: r, k: d } => if f == format && r == rows && d == k {
                    Value::BlockProduct { format, w, x, rows, n, k }
                } else {
                    Value::Unknown
                },
                _ => Value::Unknown,
            },
        ),
        CommandView::CopyD2d { src, dst, bytes } => put(
            s,
            dst,
            Value::Copied { of: Box::new(s(src)), bytes },
        ),
        CommandView::Upload { data, dst } => put(s, dst, Value::Data(data)),
        CommandView::UploadAsync { data, dst } => put(s, dst, Value::Data(data)),
        CommandView::Memset { dst, value, bytes } => put(s, dst, Value::Filled(value, bytes)),
        CommandView::MemsetAsync { dst, value, bytes } => put(s, dst, Value::Filled(value, bytes)),
        CommandView::Synchronize => s,
        CommandView::Free { .. } => s,
    }
}

/// The store after commands, one after the other.
pub open spec fn run(s: spec_fn(DevicePtr) -> Value, cmds: Seq<CommandView>) -> spec_fn(DevicePtr) -> Value
    decreases cmds.len(),
{
    if cmds.len() == 0 {
        s
    } else {
        step(run(s, cmds.drop_last()), cmds.last())
    }
}

/// A launch of this kernel.
pub open spec fn is_launch(c: CommandView, kernel: Kernel) -> bool {
    c matches CommandView::Launch { kernel: k, .. } && k == kernel
}

/// A command writes to the buffer at this address.
pub open spec fn writes_to(c: CommandView, p: DevicePtr) -> bool {
    match c {
        CommandView::Launch { kernel, args, .. } => launch_target(kernel, args) == p,
        CommandView::DenseGemm { c, .. } => c == p,
        CommandView::DenseGemv { out, .. } => out == p,
        CommandView::Q8Rows { out, .. } => out == p,
        CommandView::QuantizeAct { out, .. } => out == p,
        CommandView::Mmvq { out, .. } => out == p,
        CommandView::MmvqExperts { out, .. } => out == p,
        CommandView::MmqGemm { out, .. } => out == p,
        CommandView::CopyD2d { dst, .. } => dst == p,
        CommandView::Upload { dst, .. } => dst == p,
        CommandView::UploadAsync { dst, .. } => dst == p,
        CommandView::Memset { dst, .. } => dst == p,
        CommandView::MemsetAsync { dst, .. } => dst == p,
        CommandView::Synchronize => false,
        CommandView::Free { .. } => false,
    }
}

/// A value that no command writes to stays.
pub proof fn lemma_run_spares(s: spec_fn(DevicePtr) -> Value, cmds: Seq<CommandView>, p: DevicePtr)
    ensures
        (forall|i: int| 0 <= i < cmds.len() ==> !writes_to(#[trigger] cmds[i], p)) ==> run(s, cmds)(p) == s(p),
    decreases cmds.len(),
{
    if cmds.len() > 0 {
        let front: Seq<CommandView> = cmds.drop_last();
        lemma_run_spares(s, front, p);
        assert(cmds.last() == cmds[cmds.len() - 1]);
        if forall|i: int| 0 <= i < cmds.len() ==> !writes_to(#[trigger] cmds[i], p) {
            assert forall|i: int| 0 <= i < front.len() implies !writes_to(#[trigger] front[i], p) by {
                assert(front[i] == cmds[i]);
            }
        }
    }
}

/// Commands run in pieces.
pub proof fn lemma_run_append(s: spec_fn(DevicePtr) -> Value, a: Seq<CommandView>, b: Seq<CommandView>)
    ensures
        run(s, a + b) == run(run(s, a), b),
    decreases b.len(),
{
    if b.len() == 0 {
        assert(a + b =~= a);
    } else {
        lemma_run_append(s, a, b.drop_last());
        assert((a + b).drop_last() =~= a + b.drop_last());
        assert((a + b).last() == b.last());
    }
}

/// No command, and one.
pub proof fn lemma_run_one(s: spec_fn(DevicePtr) -> Value, c: CommandView)
    ensures
        run(s, seq![]) == s,
        run(s, seq![c]) == step(s, c),
{
    let none: Seq<CommandView> = seq![];
    assert(run(s, none) == s);
    assert(seq![c].drop_last() =~= none);
}

/// Two, three and four commands.
pub proof fn lemma_run_few(
    s: spec_fn(DevicePtr) -> Value,
    a: CommandView,
    b: CommandView,
    c: CommandView,
    d: CommandView,
)
    ensures
        run(s, seq![a, b]) == step(step(s, a), b),
        run(s, seq![a, b, c]) == step(step(step(s, a), b), c),
        run(s, seq![a, b, c, d]) == step(step(step(step(s, a), b), c), d),
{
    lemma_run_one(s, a);
    assert(seq![a, b].drop_last() =~= seq![a]);
    assert(seq![a, b, c].drop_last() =~= seq![a, b]);
    assert(seq![a, b, c, d].drop_last() =~= seq![a, b, c]);
    assert(run(s, seq![a, b]) == step(run(s, seq![a]), b));
    assert(run(s, seq![a, b, c]) == step(run(s, seq![a, b]), c));
}

/// Blocks of threads, as many as are needed, cover all values.
pub proof fn lemma_div_up_covers(a: u32, b: u32)
    requires
        b > 1,
    ensures
        div_up_of(a, b) * b >= a,
{
    vstd::arithmetic::div_mod::lemma_fundamental_div_mod(a as int, b as int);
    assert((a / b) * b == b * (a / b)) by (nonlinear_arith);
    assert((a / b + 1) * b == b * (a / b) + b) by (nonlinear_arith);
    assert(a / b + 1 <= u32::MAX) by (nonlinear_arith)
        requires
            b >= 2,
            a <= u32::MAX,
    ;
}

/// The number of an address among others, -1 where it is none of them.
pub open spec fn place_among(all: Seq<DevicePtr>, p: DevicePtr) -> int {
    if all.contains(p) {
        all.index_of(p)
    } else {
        -1
    }
}

/// Different addresses have different numbers.
pub proof fn lemma_place_among(all: Seq<DevicePtr>, i: int)
    requires
        all.no_duplicates(),
        0 <= i < all.len(),
    ensures
        place_among(all, all[i]) == i,
{
    assert(all.contains(all[i]));
}

} // verus!
