//! The device as the host sees it: addresses, and the commands that are sent
//! to it in order.
//!
//! The layers do not talk to a driver. They append to a [`CommandQueue`], and
//! whoever owns the driver carries the commands out one after the other.

use vstd::prelude::*;

verus! {

/// An address in device memory.
#[derive(Clone, Copy, Debug, PartialEq, Eq, Structural)]
pub struct DevicePtr(pub u64);

/// `bytes` bytes from `p` on are addressable.
pub open spec fn has_room(p: DevicePtr, bytes: int) -> bool {
    p.0 + bytes <= u64::MAX
}

/// Whether `bytes` bytes from `p` on are addressable.
pub fn is_roomy(p: DevicePtr, bytes: usize) -> (r: bool)
    ensures
        r == has_room(p, bytes as int),
{
    p.0 <= 0xFFFF_FFFF_FFFF_FFFF - bytes as u64
}

/// The address `byte_off` bytes behind `p`.
pub open spec fn offset_by(p: DevicePtr, byte_off: int) -> DevicePtr {
    DevicePtr((p.0 + byte_off) as u64)
}

/// The address `byte_off` bytes behind `p`.
pub fn at(p: DevicePtr, byte_off: usize) -> (r: DevicePtr)
    requires
        has_room(p, byte_off as int),
    ensures
        r == offset_by(p, byte_off as int),
        r.0 == p.0 + byte_off,
{
    DevicePtr(p.0 + byte_off as u64)
}

/// The kernels that the layers launch.
#[derive(Clone, Copy, Debug, PartialEq, Eq, Structural)]
pub enum Kernel {
    AttnRmsnormBf16,
    AttnRmsnormF32,
    AttnRope,
    AttnActQuantFp8,
    AttnFp4Quant,
    AttnGemmF32,
    AttnPool,
    AttnIndexScore,
    AttnSparseAttn,
    AttnSliceCols,
    AttnScatterCols,
    AttnScaleBf16,
    DenseGemmBf16,
    DenseGemvBf16,
    DenseGemmBf16F32out,
    MoeRouterGemv,
    Q8Rows,
    MmvqQ2k,
    MmvqQ3k,
    MmvqQ2kExperts,
    MmvqQ3kExperts,
    MoeSwiglu,
    MoeAccumulate,
    MoeFinish,
    MoeGatherRows,
    MoeScatterAdd,
    QuantD2s6,
    QuantD4,
    MmqQ2kNc,
    MmqQ2kWc,
    MmqQ3kNc,
    MmqQ3kWc,
}

/// The modules that kernels are found in.
#[derive(Clone, Copy, Debug, PartialEq, Eq, Structural)]
pub enum KernelModule {
    /// `attn_v41`
    Attn,
    /// `gemm`
    Gemm,
    /// `gemv`
    Gemv,
    /// `moe_v41`
    Moe,
    /// the K-quant kernels that the layers share with other models
    Kquant,
}

/// Where a kernel is found: its module and its function.
pub open spec fn kernel_source_of(k: Kernel) -> (KernelModule, Seq<char>) {
    match k {
        Kernel::AttnRmsnormBf16 => (KernelModule::Attn, "attn_v41_rmsnorm_bf16"@),
        Kernel::AttnRmsnormF32 => (KernelModule::Attn, "attn_v41_rmsnorm_f32"@),
        Kernel::AttnRope => (KernelModule::Attn, "attn_v41_rope"@),
        Kernel::AttnActQuantFp8 => (KernelModule::Attn, "attn_v41_act_quant_fp8"@),
        Kernel::AttnFp4Quant => (KernelModule::Attn, "attn_v41_fp4_quant"@),
        Kernel::AttnGemmF32 => (KernelModule::Attn, "attn_v41_gemm_f32"@),
        Kernel::AttnPool => (KernelModule::Attn, "attn_v41_pool"@),
        Kernel::AttnIndexScore => (KernelModule::Attn, "attn_v41_index_score"@),
        Kernel::AttnSparseAttn => (KernelModule::Attn, "attn_v41_sparse_attn"@),
        Kernel::AttnSliceCols => (KernelModule::Attn, "attn_v41_slice_cols"@),
        Kernel::AttnScatterCols => (KernelModule::Attn, "attn_v41_scatter_cols"@),
        Kernel::AttnScaleBf16 => (KernelModule::Attn, "attn_v41_scale_bf16"@),
        Kernel::DenseGemmBf16 => (KernelModule::Gemm, "dense_gemm_bf16"@),
        Kernel::DenseGemvBf16 => (KernelModule::Gemv, "dense_gemv_bf16"@),
        Kernel::DenseGemmBf16F32out => (KernelModule::Gemm, "dense_gemm_bf16_f32out"@),
        Kernel::MoeRouterGemv => (KernelModule::Moe, "moe_v41_router_gemv_f32out"@),
        Kernel::Q8Rows => (KernelModule::Kquant, "kquant_q8_1_rows_bf16"@),
        Kernel::MmvqQ2k => (KernelModule::Kquant, "kquant_mmvq_q2_k_w"@),
        Kernel::MmvqQ3k => (KernelModule::Kquant, "kquant_mmvq_q3_k_w"@),
        Kernel::MmvqQ2kExperts => (KernelModule::Kquant, "kquant_mmvq_q2_k_experts_w"@),
        Kernel::MmvqQ3kExperts => (KernelModule::Kquant, "kquant_mmvq_q3_k_experts_w"@),
        Kernel::MoeSwiglu => (KernelModule::Moe, "moe_v41_swiglu"@),
        Kernel::MoeAccumulate => (KernelModule::Moe, "moe_v41_accumulate"@),
        Kernel::MoeFinish => (KernelModule::Moe, "moe_v41_finish"@),
        Kernel::MoeGatherRows => (KernelModule::Moe, "moe_v41_gather_rows"@),
        Kernel::MoeScatterAdd => (KernelModule::Moe, "moe_v41_scatter_add"@),
        Kernel::QuantD2s6 => (KernelModule::Kquant, "atlas_q8_1_quantize_d2s6_bf16"@),
        Kernel::QuantD4 => (KernelModule::Kquant, "atlas_q8_1_quantize_d4_bf16"@),
        Kernel::MmqQ2kNc => (KernelModule::Kquant, "atlas_q2_k_mmq128_nc"@),
        Kernel::MmqQ2kWc => (KernelModule::Kquant, "atlas_q2_k_mmq128_wc"@),
        Kernel::MmqQ3kNc => (KernelModule::Kquant, "atlas_q3_k_mmq128_nc"@),
        Kernel::MmqQ3kWc => (KernelModule::Kquant, "atlas_q3_k_mmq128_wc"@),
    }
}

/// Where a kernel is found: its module and its function.
pub fn kernel_source(k: Kernel) -> (r: (KernelModule, &'static str))
    ensures
        (r.0, r.1@) == kernel_source_of(k),
{
    match k {
        Kernel::AttnRmsnormBf16 => (KernelModule::Attn, "attn_v41_rmsnorm_bf16"),
        Kernel::AttnRmsnormF32 => (KernelModule::Attn, "attn_v41_rmsnorm_f32"),
        Kernel::AttnRope => (KernelModule::Attn, "attn_v41_rope"),
        Kernel::AttnActQuantFp8 => (KernelModule::Attn, "attn_v41_act_quant_fp8"),
        Kernel::AttnFp4Quant => (KernelModule::Attn, "attn_v41_fp4_quant"),
        Kernel::AttnGemmF32 => (KernelModule::Attn, "attn_v41_gemm_f32"),
        Kernel::AttnPool => (KernelModule::Attn, "attn_v41_pool"),
        Kernel::AttnIndexScore => (KernelModule::Attn, "attn_v41_index_score"),
        Kernel::AttnSparseAttn => (KernelModule::Attn, "attn_v41_sparse_attn"),
        Kernel::AttnSliceCols => (KernelModule::Attn, "attn_v41_slice_cols"),
        Kernel::AttnScatterCols => (KernelModule::Attn, "attn_v41_scatter_cols"),
        Kernel::AttnScaleBf16 => (KernelModule::Attn, "attn_v41_scale_bf16"),
        Kernel::DenseGemmBf16 => (KernelModule::Gemm, "dense_gemm_bf16"),
        Kernel::DenseGemvBf16 => (KernelModule::Gemv, "dense_gemv_bf16"),
        Kernel::DenseGemmBf16F32out => (KernelModule::Gemm, "dense_gemm_bf16_f32out"),
        Kernel::MoeRouterGemv => (KernelModule::Moe, "moe_v41_router_gemv_f32out"),
        Kernel::Q8Rows => (KernelModule::Kquant, "kquant_q8_1_rows_bf16"),
        Kernel::MmvqQ2k => (KernelModule::Kquant, "kquant_mmvq_q2_k_w"),
        Kernel::MmvqQ3k => (KernelModule::Kquant, "kquant_mmvq_q3_k_w"),
        Kernel::MmvqQ2kExperts => (KernelModule::Kquant, "kquant_mmvq_q2_k_experts_w"),
        Kernel::MmvqQ3kExperts => (KernelModule::Kquant, "kquant_mmvq_q3_k_experts_w"),
        Kernel::MoeSwiglu => (KernelModule::Moe, "moe_v41_swiglu"),
        Kernel::MoeAccumulate => (KernelModule::Moe, "moe_v41_accumulate"),
        Kernel::MoeFinish => (KernelModule::Moe, "moe_v41_finish"),
        Kernel::MoeGatherRows => (KernelModule::Moe, "moe_v41_gather_rows"),
        Kernel::MoeScatterAdd => (KernelModule::Moe, "moe_v41_scatter_add"),
        Kernel::QuantD2s6 => (KernelModule::Kquant, "atlas_q8_1_quantize_d2s6_bf16"),
        Kernel::QuantD4 => (KernelModule::Kquant, "atlas_q8_1_quantize_d4_bf16"),
        Kernel::MmqQ2kNc => (KernelModule::Kquant, "atlas_q2_k_mmq128_nc"),
        Kernel::MmqQ2kWc => (KernelModule::Kquant, "atlas_q2_k_mmq128_wc"),
        Kernel::MmqQ3kNc => (KernelModule::Kquant, "atlas_q3_k_mmq128_nc"),
        Kernel::MmqQ3kWc => (KernelModule::Kquant, "atlas_q3_k_mmq128_wc"),
    }
}

/// Three extents of a launch.
#[derive(Clone, Copy, Debug, PartialEq, Eq, Structural)]
pub struct Dim3 {
    pub x: u32,
    pub y: u32,
    pub z: u32,
}

/// A launch argument; floats by their bit pattern.
#[derive(Clone, Copy, Debug, PartialEq, Eq, Structural)]
pub enum Arg {
    Ptr(DevicePtr),
    U32(u32),
    F32(u32),
}

/// The block formats that a quantised product can read.
#[derive(Clone, Copy, Debug, PartialEq, Eq, Structural)]
pub enum BlockFormat {
    Q2K,
    Q3K,
}

/// One command to the device.
#[derive(Clone, Debug, PartialEq, Eq)]
pub enum Command {
    Launch { kernel: Kernel, grid: Dim3, block: Dim3, args: Vec<Arg> },
    /// bf16 `c[m, n] = a[m, k] . w[n, k]`
    DenseGemm { a: DevicePtr, w: DevicePtr, c: DevicePtr, m: u32, n: u32, k: u32 },
    /// bf16 `out[n] = a[k] . w[n, k]`
    DenseGemv { a: DevicePtr, w: DevicePtr, out: DevicePtr, n: u32, k: u32 },
    /// bf16 rows to q8_1 rows
    Q8Rows { a: DevicePtr, out: DevicePtr, rows: u32, k: u32 },
    /// bf16 rows to the activations of the tiled quantised product
    QuantizeAct { format: BlockFormat, a: DevicePtr, out: DevicePtr, rows: u32, k: u32 },
    /// quantised product on q8_1 rows
    Mmvq { format: BlockFormat, w: DevicePtr, a: DevicePtr, out: DevicePtr, n: u32, k: u32, rows: u32 },
    /// the same for several experts, their weights by a pointer table
    MmvqExperts {
        format: BlockFormat,
        table: DevicePtr,
        a: DevicePtr,
        out: DevicePtr,
        n: u32,
        k: u32,
        rows: u32,
        experts: u32,
        a_stride: u32,
    },
    /// tiled quantised product
    MmqGemm { format: BlockFormat, a: DevicePtr, w: DevicePtr, out: DevicePtr, rows: u32, n: u32, k: u32 },
    CopyD2d { src: DevicePtr, dst: DevicePtr, bytes: usize },
    Upload { data: Vec<u8>, dst: DevicePtr },
    UploadAsync { data: Vec<u8>, dst: DevicePtr },
    Memset { dst: DevicePtr, value: u8, bytes: usize },
    MemsetAsync { dst: DevicePtr, value: u8, bytes: usize },
    Synchronize,
    Free { p: DevicePtr },
}

/// What a command says.
pub enum CommandView {
    Launch { kernel: Kernel, grid: Dim3, block: Dim3, args: Seq<Arg> },
    DenseGemm { a: DevicePtr, w: DevicePtr, c: DevicePtr, m: u32, n: u32, k: u32 },
    DenseGemv { a: DevicePtr, w: DevicePtr, out: DevicePtr, n: u32, k: u32 },
    Q8Rows { a: DevicePtr, out: DevicePtr, rows: u32, k: u32 },
    QuantizeAct { format: BlockFormat, a: DevicePtr, out: DevicePtr, rows: u32, k: u32 },
    Mmvq { format: BlockFormat, w: DevicePtr, a: DevicePtr, out: DevicePtr, n: u32, k: u32, rows: u32 },
    MmvqExperts {
        format: BlockFormat,
        table: DevicePtr,
        a: DevicePtr,
        out: DevicePtr,
        n: u32,
        k: u32,
        rows: u32,
        experts: u32,
        a_stride: u32,
    },
    MmqGemm { format: BlockFormat, a: DevicePtr, w: DevicePtr, out: DevicePtr, rows: u32, n: u32, k: u32 },
    CopyD2d { src: DevicePtr, dst: DevicePtr, bytes: int },
    Upload { data: Seq<u8>, dst: DevicePtr },
    UploadAsync { data: Seq<u8>, dst: DevicePtr },
    Memset { dst: DevicePtr, value: u8, bytes: int },
    MemsetAsync { dst: DevicePtr, value: u8, bytes: int },
    Synchronize,
    Free { p: DevicePtr },
}

impl View for Command {
    type V = CommandView;

    open spec fn view(&self) -> CommandView {
        match *self {
            Command::Launch { kernel, grid, block, args } => CommandView::Launch { kernel, grid, block, args: args@ },
            Command::DenseGemm { a, w, c, m, n, k } => CommandView::DenseGemm { a, w, c, m, n, k },
            Command::DenseGemv { a, w, out, n, k } => CommandView::DenseGemv { a, w, out, n, k },
            Command::Q8Rows { a, out, rows, k } => CommandView::Q8Rows { a, out, rows, k },
            Command::QuantizeAct { format, a, out, rows, k } => CommandView::QuantizeAct { format, a, out, rows, k },
            Command::Mmvq { format, w, a, out, n, k, rows } => CommandView::Mmvq { format, w, a, out, n, k, rows },
            Command::MmvqExperts { format, table, a, out, n, k, rows, experts, a_stride } => CommandView::MmvqExperts {
                format,
                table,
                a,
                out,
                n,
                k,
                rows,
                experts,
                a_stride,
            },
            Command::MmqGemm { format, a, w, out, rows, n, k } => CommandView::MmqGemm { format, a, w, out, rows, n, k },
            Command::CopyD2d { src, dst, bytes } => CommandView::CopyD2d { src, dst, bytes: bytes as int },
            Command::Upload { data, dst } => CommandView::Upload { data: data@, dst },
            Command::UploadAsync { data, dst } => CommandView::UploadAsync { data: data@, dst },
            Command::Memset { dst, value, bytes } => CommandView::Memset { dst, value, bytes: bytes as int },
            Command::MemsetAsync { dst, value, bytes } => CommandView::MemsetAsync { dst, value, bytes: bytes as int },
            Command::Synchronize => CommandView::Synchronize,
            Command::Free { p } => CommandView::Free { p },
        }
    }
}

/// Commands in the order in which they are to be carried out.
#[derive(Debug)]
pub struct CommandQueue {
    pub commands: Vec<Command>,
}

impl View for CommandQueue {
    type V = Seq<CommandView>;

    open spec fn view(&self) -> Seq<CommandView> {
        self.commands@.map_values(|c: Command| c@)
    }
}

impl CommandQueue {
    /// An empty queue.
    pub fn new() -> (r: Self)
        ensures
            r@ == Seq::<CommandView>::empty(),
    {
        let r: CommandQueue = CommandQueue { commands: Vec::new() };
        assert(r@ =~= Seq::<CommandView>::empty());
        r
    }

    /// Appends a command.
    pub fn push(&mut self, c: Command)
        ensures
            final(self)@ == old(self)@.push(c@),
    {
        self.commands.push(c);
        assert(self@ =~= old(self)@.push(c@));
    }
}

/// `a / b`, rounded up.
pub open spec fn div_up_of(a: u32, b: u32) -> u32 {
    if a % b == 0 {
        a / b
    } else {
        (a / b + 1) as u32
    }
}

/// `a / b`, rounded up.
pub fn div_up(a: u32, b: u32) -> (r: u32)
    requires
        b > 0,
    ensures
        r == div_up_of(a, b),
        r * b >= a,
        r > 0 ==> (r - 1) * b < a,
{
    proof {
        vstd::arithmetic::div_mod::lemma_fundamental_div_mod(a as int, b as int);
        assert((a / b) * b == b * (a / b)) by (nonlinear_arith);
        assert((a / b + 1) * b == b * (a / b) + b) by (nonlinear_arith);
        assert((a / b - 1) * b == b * (a / b) - b) by (nonlinear_arith);
        if a % b != 0 {
            assert(b != 1) by {
                if b == 1 {
                    assert(a % 1 == 0);
                }
            }
            assert(a / b + 1 <= u32::MAX) by (nonlinear_arith)
                requires
                    b >= 2,
                    a <= u32::MAX,
            ;
        }
    }
    if a % b == 0 {
        a / b
    } else {
        a / b + 1
    }
}

/// A launch on a flat or two-dimensional grid.
pub open spec fn launched(kernel: Kernel, gx: u32, gy: u32, bx: u32, by: u32, args: Seq<Arg>) -> CommandView {
    CommandView::Launch {
        kernel,
        grid: Dim3 { x: gx, y: gy, z: 1 },
        block: Dim3 { x: bx, y: by, z: 1 },
        args,
    }
}

/// Launches a kernel on a flat or two-dimensional grid.
pub fn launch(q: &mut CommandQueue, kernel: Kernel, gx: u32, gy: u32, bx: u32, by: u32, args: Vec<Arg>)
    ensures
        final(q)@ == old(q)@.push(launched(kernel, gx, gy, bx, by, args@)),
{
    q.push(
        Command::Launch { kernel, grid: Dim3 { x: gx, y: gy, z: 1 }, block: Dim3 { x: bx, y: by, z: 1 }, args },
    );
}

/// A flag as a kernel argument.
pub open spec fn flag_of(b: bool) -> u32 {
    if b {
        1
    } else {
        0
    }
}

/// A flag as a kernel argument.
pub fn flag(b: bool) -> (r: u32)
    ensures
        r == flag_of(b),
{
    if b {
        1
    } else {
        0
    }
}

/// An allocation is never smaller than 16 bytes.
pub open spec fn at_least_16(bytes: int) -> int {
    if bytes < 16 {
        16
    } else {
        bytes
    }
}

/// An allocation is never smaller than 16 bytes.
pub fn padded_16(bytes: usize) -> (r: usize)
    ensures
        r == at_least_16(bytes as int),
{
    if bytes < 16 {
        16
    } else {
        bytes
    }
}

/// One command per buffer, in order, that gives it back.
pub open spec fn freed(buffers: Seq<DevicePtr>) -> Seq<CommandView> {
    buffers.map_values(|p: DevicePtr| CommandView::Free { p })
}

/// Gives buffers back, in order.
pub fn free_each(q: &mut CommandQueue, buffers: &Vec<DevicePtr>)
    ensures
        final(q)@ == old(q)@ + freed(buffers@),
{
    let n: usize = buffers.len();
    assert(q@ =~= old(q)@ + freed(buffers@).take(0));
    for i in 0..n
        invariant
            n == buffers@.len(),
            q@ == old(q)@ + freed(buffers@).take(i as int),
    {
        q.push(Command::Free { p: buffers[i] });
        assert(q@ =~= old(q)@ + freed(buffers@).take(i + 1));
    }
    assert(freed(buffers@).take(n as int) =~= freed(buffers@));
}

/// As many blocks as are needed, and not one more.
pub proof fn lemma_div_up_is_least(a: u32, b: u32)
    requires
        b > 1,
    ensures
        div_up_of(a, b) * b >= a,
        a > 0 ==> (div_up_of(a, b) - 1) * b < a,
        a == 0 ==> div_up_of(a, b) == 0,
{
    let k: int = (a / b) as int;
    vstd::arithmetic::div_mod::lemma_fundamental_div_mod(a as int, b as int);
    assert(k * b == b * k && (k + 1) * b == k * b + b && (k - 1) * b == k * b - b) by (nonlinear_arith);
    assert(k + 1 <= u32::MAX) by (nonlinear_arith)
        requires
            k == a as int / b as int,
            b >= 2,
            a <= u32::MAX,
    ;
}

/// Every kernel is the function of its own name, in the module that it belongs
/// to.
pub proof fn lemma_kernels_by_name()
    ensures
        kernel_source_of(Kernel::AttnRmsnormBf16) == (KernelModule::Attn, "attn_v41_rmsnorm_bf16"@),
        kernel_source_of(Kernel::AttnRmsnormF32) == (KernelModule::Attn, "attn_v41_rmsnorm_f32"@),
        kernel_source_of(Kernel::AttnRope) == (KernelModule::Attn, "attn_v41_rope"@),
        kernel_source_of(Kernel::AttnActQuantFp8) == (KernelModule::Attn, "attn_v41_act_quant_fp8"@),
        kernel_source_of(Kernel::AttnFp4Quant) == (KernelModule::Attn, "attn_v41_fp4_quant"@),
        kernel_source_of(Kernel::AttnGemmF32) == (KernelModule::Attn, "attn_v41_gemm_f32"@),
        kernel_source_of(Kernel::AttnPool) == (KernelModule::Attn, "attn_v41_pool"@),
        kernel_source_of(Kernel::AttnIndexScore) == (KernelModule::Attn, "attn_v41_index_score"@),
        kernel_source_of(Kernel::AttnSparseAttn) == (KernelModule::Attn, "attn_v41_sparse_attn"@),
        kernel_source_of(Kernel::AttnSliceCols) == (KernelModule::Attn, "attn_v41_slice_cols"@),
        kernel_source_of(Kernel::AttnScatterCols) == (KernelModule::Attn, "attn_v41_scatter_cols"@),
        kernel_source_of(Kernel::AttnScaleBf16) == (KernelModule::Attn, "attn_v41_scale_bf16"@),
        kernel_source_of(Kernel::DenseGemmBf16) == (KernelModule::Gemm, "dense_gemm_bf16"@),
        kernel_source_of(Kernel::DenseGemvBf16) == (KernelModule::Gemv, "dense_gemv_bf16"@),
        kernel_source_of(Kernel::DenseGemmBf16F32out) == (KernelModule::Gemm, "dense_gemm_bf16_f32out"@),
        kernel_source_of(Kernel::MoeRouterGemv) == (KernelModule::Moe, "moe_v41_router_gemv_f32out"@),
        kernel_source_of(Kernel::Q8Rows) == (KernelModule::Kquant, "kquant_q8_1_rows_bf16"@),
        kernel_source_of(Kernel::MmvqQ2k) == (KernelModule::Kquant, "kquant_mmvq_q2_k_w"@),
        kernel_source_of(Kernel::MmvqQ3k) == (KernelModule::Kquant, "kquant_mmvq_q3_k_w"@),
        kernel_source_of(Kernel::MmvqQ2kExperts) == (KernelModule::Kquant, "kquant_mmvq_q2_k_experts_w"@),
        kernel_source_of(Kernel::MmvqQ3kExperts) == (KernelModule::Kquant, "kquant_mmvq_q3_k_experts_w"@),
        kernel_source_of(Kernel::MoeSwiglu) == (KernelModule::Moe, "moe_v41_swiglu"@),
        kernel_source_of(Kernel::MoeAccumulate) == (KernelModule::Moe, "moe_v41_accumulate"@),
        kernel_source_of(Kernel::MoeFinish) == (KernelModule::Moe, "moe_v41_finish"@),
        kernel_source_of(Kernel::MoeGatherRows) == (KernelModule::Moe, "moe_v41_gather_rows"@),
        kernel_source_of(Kernel::MoeScatterAdd) == (KernelModule::Moe, "moe_v41_scatter_add"@),
        kernel_source_of(Kernel::QuantD2s6) == (KernelModule::Kquant, "atlas_q8_1_quantize_d2s6_bf16"@),
        kernel_source_of(Kernel::QuantD4) == (KernelModule::Kquant, "atlas_q8_1_quantize_d4_bf16"@),
        kernel_source_of(Kernel::MmqQ2kNc) == (KernelModule::Kquant, "atlas_q2_k_mmq128_nc"@),
        kernel_source_of(Kernel::MmqQ2kWc) == (KernelModule::Kquant, "atlas_q2_k_mmq128_wc"@),
        kernel_source_of(Kernel::MmqQ3kNc) == (KernelModule::Kquant, "atlas_q3_k_mmq128_nc"@),
        kernel_source_of(Kernel::MmqQ3kWc) == (KernelModule::Kquant, "atlas_q3_k_mmq128_wc"@),
{
}

} // verus!
