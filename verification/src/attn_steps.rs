//! The steps of an attention layer, each as the commands that it issues.

use crate::attn_cfg::{
    AttnError, AttnV41, AttnV41Cfg, AttnV41LayerState, AttnV41LayerWeights, CompressorWeightsGpu, IndexerWeightsGpu,
    SharedV41,
};
use crate::bytes::{i32_bytes, ints_bytes};
use crate::compress::{completed_groups, completes_group, group_starts, latent_positions, FP4_BLOCK};
use crate::device::{
    at, div_up, div_up_of, flag, flag_of, has_room, launch, launched, offset_by, Arg, Command, CommandQueue,
    CommandView, DevicePtr, Kernel,
};
use crate::rows::{concat_rows, lemma_concat_rows_len, lemma_mul_le, lemma_row_bounds};
use vstd::prelude::*;

verus! {

/// One warp per quantiser block, 8 warps per launch block.
pub const QUANT_BLOCKS_PER_LAUNCH: u32 = 8;

/// bf16 `c[m, n] = a[m, k] . w[n, k]`.
pub open spec fn gemmed(a: DevicePtr, w: DevicePtr, c: DevicePtr, m: int, n: int, k: int) -> CommandView {
    CommandView::DenseGemm { a, w, c, m: m as u32, n: n as u32, k: k as u32 }
}

/// Uploads signed words.
pub fn upload_i32(q: &mut CommandQueue, dst: DevicePtr, v: &[i32])
    ensures
        final(q)@ == old(q)@.push(CommandView::Upload { data: ints_bytes(v@), dst }),
{
    q.push(Command::Upload { data: i32_bytes(v), dst });
}

/// The positions of `m` tokens from `start_pos` on, each `n` times.
pub open spec fn token_positions(start_pos: int, m: int, n: int) -> Seq<i32> {
    concat_rows(m as nat, |t: int| Seq::new(n as nat, |h: int| (start_pos + t) as i32))
}

/// The positions of `m` tokens from `start_pos` on, each `n` times.
pub fn repeated_positions(start_pos: usize, m: usize, n: usize) -> (r: Vec<i32>)
    requires
        start_pos + m <= usize::MAX,
    ensures
        r@ == token_positions(start_pos as int, m as int, n as int),
        r@.len() == m * n,
{
    let mut out: Vec<i32> = Vec::new();
    let ghost f = |t: int| Seq::new(n as nat, |h: int| (start_pos + t) as i32);
    for t in 0..m
        invariant
            start_pos + m <= usize::MAX,
            f == |t: int| Seq::new(n as nat, |h: int| (start_pos + t) as i32),
            out@ == concat_rows(t as nat, f),
    {
        let ghost done: Seq<i32> = out@;
        for h in 0..n
            invariant
                t < m,
                start_pos + m <= usize::MAX,
                out@ == done + Seq::new(h as nat, |h: int| (start_pos + t) as i32),
        {
            out.push((start_pos + t) as i32);
            assert(out@ =~= done + Seq::new((h + 1) as nat, |h: int| (start_pos + t) as i32));
        }
        assert(out@ =~= done + f(t as int));
    }
    proof {
        assert forall|t: int| 0 <= t < m implies (#[trigger] f(t)).len() == n by {}
        lemma_concat_rows_len(m as nat, n as int, f);
    }
    out
}

impl AttnV41 {
    /// RMSNorm of `rows` rows of `dim` values.
    pub open spec fn rmsnorm_cmds(
        &self,
        f32_in: bool,
        x: DevicePtr,
        w: DevicePtr,
        out: DevicePtr,
        rows: int,
        dim: int,
    ) -> Seq<CommandView> {
        if rows == 0 {
            seq![]
        } else {
            seq![
                launched(
                    if f32_in {
                        Kernel::AttnRmsnormF32
                    } else {
                        Kernel::AttnRmsnormBf16
                    },
                    rows as u32,
                    1,
                    256,
                    1,
                    seq![Arg::Ptr(x), Arg::Ptr(w), Arg::Ptr(out), Arg::U32(dim as u32), Arg::F32(self.cfg.eps)],
                ),
            ]
        }
    }

    /// Rotation, or its inverse, of `rows` rows to the positions `pos`.
    pub open spec fn rope_cmds(
        &self,
        x: DevicePtr,
        pos: DevicePtr,
        rows: int,
        row_len: int,
        yarn: bool,
        inverse: bool,
    ) -> Seq<CommandView> {
        if rows == 0 {
            seq![]
        } else {
            let half: int = self.cfg.rope_dim as int / 2;
            seq![
                launched(
                    Kernel::AttnRope,
                    rows as u32,
                    1,
                    (if half < 32 {
                        32
                    } else {
                        half
                    }) as u32,
                    1,
                    seq![
                        Arg::Ptr(x),
                        Arg::Ptr(pos),
                        Arg::Ptr(
                            if yarn {
                                self.buf.fc_yarn
                            } else {
                                self.buf.fc_plain
                            },
                        ),
                        Arg::U32(row_len as u32),
                        Arg::U32(self.cfg.rope_dim as u32),
                        Arg::U32(flag_of(inverse)),
                    ],
                ),
            ]
        }
    }

    /// The fp8 round trip of `n_values` values, in blocks of 32.
    pub open spec fn act_quant_cmds(&self, x: DevicePtr, n_values: int) -> Seq<CommandView> {
        let n_blocks: int = n_values / 32;
        if n_blocks == 0 {
            seq![]
        } else {
            seq![
                launched(
                    Kernel::AttnActQuantFp8,
                    div_up_of(n_blocks as u32, QUANT_BLOCKS_PER_LAUNCH),
                    1,
                    256,
                    1,
                    seq![Arg::Ptr(x), Arg::U32(n_blocks as u32)],
                ),
            ]
        }
    }

    /// The fp4 round trip of `n_values` values, in blocks of `block`.
    pub open spec fn fp4_quant_cmds(&self, x: DevicePtr, n_values: int, block: int, e4m3_scale: bool) -> Seq<CommandView> {
        let n_blocks: int = n_values / block;
        if n_blocks == 0 {
            seq![]
        } else {
            seq![
                launched(
                    Kernel::AttnFp4Quant,
                    div_up_of(n_blocks as u32, QUANT_BLOCKS_PER_LAUNCH),
                    1,
                    256,
                    1,
                    seq![
                        Arg::Ptr(x),
                        Arg::U32(n_blocks as u32),
                        Arg::U32(block as u32),
                        Arg::U32(flag_of(e4m3_scale)),
                    ],
                ),
            ]
        }
    }

    pub(crate) fn gemm(&self, q: &mut CommandQueue, a: DevicePtr, w: DevicePtr, c: DevicePtr, m: usize, n: usize, kk: usize)
        ensures
            final(q)@ == old(q)@.push(gemmed(a, w, c, m as int, n as int, kk as int)),
    {
        q.push(Command::DenseGemm { a, w, c, m: m as u32, n: n as u32, k: kk as u32 });
    }

    pub(crate) fn rmsnorm(
        &self,
        q: &mut CommandQueue,
        f32_in: bool,
        x: DevicePtr,
        w: DevicePtr,
        out: DevicePtr,
        rows: usize,
        dim: usize,
    )
        ensures
            final(q)@ == old(q)@ + self.rmsnorm_cmds(f32_in, x, w, out, rows as int, dim as int),
    {
        if rows == 0 {
            assert(q@ =~= old(q)@ + self.rmsnorm_cmds(f32_in, x, w, out, rows as int, dim as int));
            return;
        }
        let kernel: Kernel = if f32_in { Kernel::AttnRmsnormF32 } else { Kernel::AttnRmsnormBf16 };
        launch(
            q,
            kernel,
            rows as u32,
            1,
            256,
            1,
            vec![Arg::Ptr(x), Arg::Ptr(w), Arg::Ptr(out), Arg::U32(dim as u32), Arg::F32(self.cfg.eps)],
        );
        assert(q@ =~= old(q)@ + self.rmsnorm_cmds(f32_in, x, w, out, rows as int, dim as int));
    }

    pub(crate) fn rope(
        &self,
        q: &mut CommandQueue,
        x: DevicePtr,
        pos: DevicePtr,
        rows: usize,
        row_len: usize,
        yarn: bool,
        inverse: bool,
    )
        ensures
            final(q)@ == old(q)@ + self.rope_cmds(x, pos, rows as int, row_len as int, yarn, inverse),
    {
        if rows == 0 {
            assert(q@ =~= old(q)@ + self.rope_cmds(x, pos, rows as int, row_len as int, yarn, inverse));
            return;
        }
        let half: usize = self.cfg.rope_dim / 2;
        let threads: usize = if half < 32 { 32 } else { half };
        launch(
            q,
            Kernel::AttnRope,
            rows as u32,
            1,
            threads as u32,
            1,
            vec![
                Arg::Ptr(x),
                Arg::Ptr(pos),
                Arg::Ptr(if yarn { self.buf.fc_yarn } else { self.buf.fc_plain }),
                Arg::U32(row_len as u32),
                Arg::U32(self.cfg.rope_dim as u32),
                Arg::U32(flag(inverse)),
            ],
        );
        assert(q@ =~= old(q)@ + self.rope_cmds(x, pos, rows as int, row_len as int, yarn, inverse));
    }

    pub(crate) fn act_quant(&self, q: &mut CommandQueue, x: DevicePtr, n_values: usize)
        ensures
            final(q)@ == old(q)@ + self.act_quant_cmds(x, n_values as int),
    {
        let n_blocks: usize = n_values / 32;
        if n_blocks == 0 {
            assert(q@ =~= old(q)@ + self.act_quant_cmds(x, n_values as int));
            return;
        }
        launch(
            q,
            Kernel::AttnActQuantFp8,
            div_up(n_blocks as u32, QUANT_BLOCKS_PER_LAUNCH),
            1,
            256,
            1,
            vec![Arg::Ptr(x), Arg::U32(n_blocks as u32)],
        );
        assert(q@ =~= old(q)@ + self.act_quant_cmds(x, n_values as int));
    }

    pub(crate) fn fp4_quant(&self, q: &mut CommandQueue, x: DevicePtr, n_values: usize, block: usize, e4m3_scale: bool)
        requires
            block > 0,
        ensures
            final(q)@ == old(q)@ + self.fp4_quant_cmds(x, n_values as int, block as int, e4m3_scale),
    {
        let n_blocks: usize = n_values / block;
        if n_blocks == 0 {
            assert(q@ =~= old(q)@ + self.fp4_quant_cmds(x, n_values as int, block as int, e4m3_scale));
            return;
        }
        launch(
            q,
            Kernel::AttnFp4Quant,
            div_up(n_blocks as u32, QUANT_BLOCKS_PER_LAUNCH),
            1,
            256,
            1,
            vec![
                Arg::Ptr(x),
                Arg::U32(n_blocks as u32),
                Arg::U32(block as u32),
                Arg::U32(flag(e4m3_scale)),
            ],
        );
        assert(q@ =~= old(q)@ + self.fp4_quant_cmds(x, n_values as int, block as int, e4m3_scale));
    }
}

/// The positions that the new latents of a call are rotated to, as the device
/// takes them.
pub open spec fn group_positions_of(groups: int, ratio: int, start_pos: int) -> Seq<i32> {
    group_starts(groups, ratio, start_pos).map_values(|p: usize| p as i32)
}

/// A call inside the workspaces and the sequence.
pub open spec fn call_in_range(c: &AttnV41Cfg, m: int, start_pos: int) -> bool {
    &&& 1 <= m <= c.max_tokens
    &&& 0 <= start_pos
    &&& start_pos + m <= c.max_seq
}

/// The products that a call forms, each a machine integer.
pub proof fn lemma_call_fits(c: &AttnV41Cfg, m: int, start_pos: int)
    requires
        c.fits(),
        call_in_range(c, m, start_pos),
    ensures
        0 <= m * c.head_dim <= m * c.head_dim * 4 <= c.max_tokens * c.head_dim * 4 <= usize::MAX,
        0 <= m * c.n_heads <= usize::MAX,
        0 <= m * c.n_heads * c.head_dim <= m * c.n_heads * c.head_dim * 2 <= c.max_tokens * c.n_heads * c.head_dim * 2
            <= usize::MAX,
        0 <= m * c.index_heads <= usize::MAX,
        0 <= m * c.index_heads * c.index_hd <= usize::MAX,
        0 <= m * c.index_hd <= m * c.index_hd * 2 <= c.max_tokens * c.index_hd * 2 <= usize::MAX,
        c.head_dim * 4 <= usize::MAX,
        0 <= c.n_heads * c.head_dim,
        0 <= c.groups * c.o_rank,
        0 <= c.index_heads * c.index_hd,
{
    let mt: int = c.max_tokens as int;
    lemma_mul_le(m, mt, c.head_dim as int);
    lemma_mul_le(0, m, c.head_dim as int);
    lemma_mul_le(1, m, c.head_dim as int);
    lemma_mul_le(m, mt, c.n_heads as int);
    lemma_mul_le(0, m, c.n_heads as int);
    lemma_mul_le(0, m * c.n_heads, c.head_dim as int);
    lemma_mul_le(m * c.n_heads, mt * c.n_heads, c.head_dim as int);
    lemma_mul_le(m, mt, c.index_heads as int);
    lemma_mul_le(0, m, c.index_heads as int);
    lemma_mul_le(0, m * c.index_heads, c.index_hd as int);
    lemma_mul_le(m * c.index_heads, mt * c.index_heads, c.index_hd as int);
    lemma_mul_le(m, mt, c.index_hd as int);
    lemma_mul_le(0, m, c.index_hd as int);
    lemma_mul_le(0, c.n_heads as int, c.head_dim as int);
    lemma_mul_le(0, c.groups as int, c.o_rank as int);
    lemma_mul_le(0, c.index_heads as int, c.index_hd as int);
}

/// A group count and a remainder of a prefill.
pub proof fn lemma_prefill_split(m: int, ratio: int)
    requires
        0 <= m,
        0 < ratio,
    ensures
        0 <= m % ratio <= m,
        m % ratio < ratio,
        (m - m % ratio) / ratio == m / ratio,
        0 <= m / ratio <= m,
        (m / ratio) * ratio == m - m % ratio,
{
    vstd::arithmetic::div_mod::lemma_fundamental_div_mod(m, ratio);
    let k: int = m / ratio;
    assert(0 <= k <= m) by (nonlinear_arith)
        requires
            0 <= m,
            0 < ratio,
            k == m / ratio,
    ;
    assert(0 <= ratio * k) by (nonlinear_arith)
        requires
            0 < ratio,
            0 <= k,
    ;
    assert(k * ratio == ratio * k) by (nonlinear_arith);
    vstd::arithmetic::div_mod::lemma_fundamental_div_mod_converse(m - m % ratio, ratio, k, 0);
}

impl AttnV41 {
    /// Why the compressor of a kv source cannot run.
    pub open spec fn compressor_error(w: &AttnV41LayerWeights, st: &AttnV41LayerState) -> Option<AttnError> {
        match w.comp {
            None => Some(AttnError::NoCompressorWeights),
            Some(comp) => if w.role.ratio == 1 {
                None
            } else if comp.gate is None {
                Some(AttnError::NoGate)
            } else if st.comp_state is None {
                Some(AttnError::NoCompressorState)
            } else {
                None
            },
        }
    }

    /// f32 `out[m, hd] = x[m, dim] . w[hd, dim]`.
    pub open spec fn gemm_f32_cmd(&self, x: DevicePtr, w: DevicePtr, out: DevicePtr, m: int) -> CommandView {
        launched(
            Kernel::AttnGemmF32,
            div_up_of(self.cfg.head_dim as u32, 16),
            div_up_of(m as u32, 16),
            16,
            16,
            seq![
                Arg::Ptr(x),
                Arg::Ptr(w),
                Arg::Ptr(out),
                Arg::U32(m as u32),
                Arg::U32(self.cfg.head_dim as u32),
                Arg::U32(self.cfg.dim as u32),
            ],
        )
    }

    /// What goes into the partial group: a prefill's incomplete rows to the
    /// front, a decoded row to the slot of its position.
    pub open spec fn partial_group_cmds(
        &self,
        kv_state: DevicePtr,
        score_state: DevicePtr,
        m: int,
        start_pos: int,
        ratio: int,
    ) -> Seq<CommandView> {
        let row: int = self.cfg.head_dim * 4;
        let rest: int = m % ratio;
        if start_pos == 0 && rest == 0 {
            seq![]
        } else if start_pos == 0 {
            seq![
                CommandView::Synchronize,
                CommandView::CopyD2d {
                    src: offset_by(self.buf.ckv, (m - rest) * row),
                    dst: kv_state,
                    bytes: rest * row,
                },
                CommandView::CopyD2d {
                    src: offset_by(self.buf.cscore, (m - rest) * row),
                    dst: score_state,
                    bytes: rest * row,
                },
            ]
        } else {
            seq![
                CommandView::Synchronize,
                CommandView::CopyD2d {
                    src: self.buf.ckv,
                    dst: offset_by(kv_state, (start_pos % ratio) * row),
                    bytes: row,
                },
                CommandView::CopyD2d {
                    src: self.buf.cscore,
                    dst: offset_by(score_state, (start_pos % ratio) * row),
                    bytes: row,
                },
            ]
        }
    }

    /// Pools complete groups, from the call's own rows on prefill, from the
    /// partial group on decode, and norms the result into the latent workspace.
    pub open spec fn pool_cmds(
        &self,
        norm: DevicePtr,
        kv_state: DevicePtr,
        score_state: DevicePtr,
        m: int,
        start_pos: int,
        ratio: int,
    ) -> Seq<CommandView> {
        if completes_group(m, start_pos, ratio) {
            let groups: int = completed_groups(m, start_pos, ratio);
            seq![
                launched(
                    Kernel::AttnPool,
                    groups as u32,
                    1,
                    256,
                    1,
                    seq![
                        Arg::Ptr(
                            if start_pos == 0 {
                                self.buf.ckv
                            } else {
                                kv_state
                            },
                        ),
                        Arg::Ptr(
                            if start_pos == 0 {
                                self.buf.cscore
                            } else {
                                score_state
                            },
                        ),
                        Arg::Ptr(self.buf.pooled),
                        Arg::U32(ratio as u32),
                        Arg::U32(self.cfg.head_dim as u32),
                    ],
                ),
            ] + self.rmsnorm_cmds(true, self.buf.pooled, norm, self.buf.latent, groups, self.cfg.head_dim as int)
        } else {
            seq![]
        }
    }

    /// The compressor of a kv source.
    pub open spec fn compressor_cmds(
        &self,
        w: &AttnV41LayerWeights,
        st: &AttnV41LayerState,
        x: DevicePtr,
        m: int,
        start_pos: int,
    ) -> Seq<CommandView> {
        let comp: CompressorWeightsGpu = w.comp->0;
        let hd: int = self.cfg.head_dim as int;
        let ratio: int = w.role.ratio as int;
        if ratio == 1 {
            seq![gemmed(x, comp.kv, self.buf.latent_raw, m, hd, self.cfg.dim as int)] + self.rmsnorm_cmds(
                false,
                self.buf.latent_raw,
                comp.norm,
                self.buf.latent,
                m,
                hd,
            )
        } else {
            let (kv_state, score_state) = st.comp_state->0;
            seq![
                self.gemm_f32_cmd(x, comp.kv, self.buf.ckv, m),
                self.gemm_f32_cmd(x, comp.gate->0, self.buf.cscore, m),
            ] + self.partial_group_cmds(kv_state, score_state, m, start_pos, ratio) + self.pool_cmds(
                comp.norm,
                kv_state,
                score_state,
                m,
                start_pos,
                ratio,
            )
        }
    }

    /// How many groups a call of a kv source completes, if any.
    pub open spec fn latent_groups(m: int, start_pos: int, ratio: int) -> Option<usize> {
        if completes_group(m, start_pos, ratio) {
            Some(completed_groups(m, start_pos, ratio) as usize)
        } else {
            None
        }
    }

    fn gemm_f32(&self, q: &mut CommandQueue, x: DevicePtr, w: DevicePtr, out: DevicePtr, m: usize)
        ensures
            final(q)@ == old(q)@.push(self.gemm_f32_cmd(x, w, out, m as int)),
    {
        launch(
            q,
            Kernel::AttnGemmF32,
            div_up(self.cfg.head_dim as u32, 16),
            div_up(m as u32, 16),
            16,
            16,
            vec![
                Arg::Ptr(x),
                Arg::Ptr(w),
                Arg::Ptr(out),
                Arg::U32(m as u32),
                Arg::U32(self.cfg.head_dim as u32),
                Arg::U32(self.cfg.dim as u32),
            ],
        );
    }

    fn fill_partial_group(
        &self,
        q: &mut CommandQueue,
        kv_state: DevicePtr,
        score_state: DevicePtr,
        m: usize,
        start_pos: usize,
        ratio: usize,
    )
        requires
            self.wf(),
            ratio > 0,
            call_in_range(&self.cfg, m as int, start_pos as int),
            ratio * self.cfg.head_dim * 4 <= usize::MAX,
            has_room(kv_state, ratio * self.cfg.head_dim * 4),
            has_room(score_state, ratio * self.cfg.head_dim * 4),
        ensures
            final(q)@ == old(q)@ + self.partial_group_cmds(
                kv_state,
                score_state,
                m as int,
                start_pos as int,
                ratio as int,
            ),
    {
        proof {
            lemma_call_fits(&self.cfg, m as int, start_pos as int);
            lemma_prefill_split(m as int, ratio as int);
        }
        let row: usize = self.cfg.head_dim * 4;
        assert(m * row == m * self.cfg.head_dim * 4 && ratio * row == ratio * self.cfg.head_dim * 4) by (nonlinear_arith)
            requires
                row == self.cfg.head_dim * 4,
        ;
        if start_pos == 0 {
            let rest: usize = m % ratio;
            let cutoff: usize = m - rest;
            proof {
                lemma_mul_le(cutoff as int, m as int, row as int);
                lemma_mul_le(0, cutoff as int, row as int);
                lemma_mul_le(rest as int, m as int, row as int);
                lemma_mul_le(0, rest as int, row as int);
            }
            if rest > 0 {
                q.push(Command::Synchronize);
                q.push(Command::CopyD2d { src: at(self.buf.ckv, cutoff * row), dst: kv_state, bytes: rest * row });
                q.push(
                    Command::CopyD2d { src: at(self.buf.cscore, cutoff * row), dst: score_state, bytes: rest * row },
                );
            }
        } else {
            let slot: usize = start_pos % ratio;
            proof {
                lemma_row_bounds(slot as int, ratio as int, row as int);
            }
            q.push(Command::Synchronize);
            q.push(Command::CopyD2d { src: self.buf.ckv, dst: at(kv_state, slot * row), bytes: row });
            q.push(Command::CopyD2d { src: self.buf.cscore, dst: at(score_state, slot * row), bytes: row });
        }
        assert(q@ =~= old(q)@ + self.partial_group_cmds(
            kv_state,
            score_state,
            m as int,
            start_pos as int,
            ratio as int,
        ));
    }

    /// The compressor's latents of this call, before their rotation, go to the
    /// latent workspace. Returns how many groups they are, or `None` while a
    /// group is still filling up.
    pub(crate) fn compressor(
        &self,
        q: &mut CommandQueue,
        w: &AttnV41LayerWeights,
        st: &AttnV41LayerState,
        x: DevicePtr,
        m: usize,
        start_pos: usize,
    ) -> (r: Result<Option<usize>, AttnError>)
        requires
            self.wf(),
            w.role.ratio > 0,
            call_in_range(&self.cfg, m as int, start_pos as int),
            st.room_for(&self.cfg, w.role.ratio as int),
        ensures
            match Self::compressor_error(w, st) {
                Some(e) => r == Err::<Option<usize>, AttnError>(e) && final(q)@ == old(q)@,
                None => r == Ok::<Option<usize>, AttnError>(
                    Self::latent_groups(m as int, start_pos as int, w.role.ratio as int),
                ) && final(q)@ == old(q)@ + self.compressor_cmds(w, st, x, m as int, start_pos as int),
            },
    {
        let comp: CompressorWeightsGpu = match w.comp {
            Some(comp) => comp,
            None => {
                return Err(AttnError::NoCompressorWeights);
            },
        };
        let hd: usize = self.cfg.head_dim;
        let ratio: usize = w.role.ratio;
        if ratio == 1 {
            self.gemm(q, x, comp.kv, self.buf.latent_raw, m, hd, self.cfg.dim);
            self.rmsnorm(q, false, self.buf.latent_raw, comp.norm, self.buf.latent, m, hd);
            assert(q@ =~= old(q)@ + self.compressor_cmds(w, st, x, m as int, start_pos as int));
            return Ok(Some(m));
        }
        let gate: DevicePtr = match comp.gate {
            Some(gate) => gate,
            None => {
                return Err(AttnError::NoGate);
            },
        };
        let (kv_state, score_state) = match st.comp_state {
            Some(pair) => pair,
            None => {
                return Err(AttnError::NoCompressorState);
            },
        };
        self.gemm_f32(q, x, comp.kv, self.buf.ckv, m);
        self.gemm_f32(q, x, gate, self.buf.cscore, m);
        let ghost products: Seq<CommandView> = seq![
            self.gemm_f32_cmd(x, comp.kv, self.buf.ckv, m as int),
            self.gemm_f32_cmd(x, gate, self.buf.cscore, m as int),
        ];
        assert(q@ =~= old(q)@ + products);
        self.fill_partial_group(q, kv_state, score_state, m, start_pos, ratio);
        let ghost filled_in: Seq<CommandView> = self.partial_group_cmds(
            kv_state,
            score_state,
            m as int,
            start_pos as int,
            ratio as int,
        );
        assert(q@ =~= old(q)@ + (products + filled_in));
        proof {
            lemma_prefill_split(m as int, ratio as int);
        }
        let complete: bool = if start_pos == 0 { m >= ratio } else { (start_pos + 1) % ratio == 0 };
        if !complete {
            assert(q@ =~= old(q)@ + self.compressor_cmds(w, st, x, m as int, start_pos as int));
            return Ok(None);
        }
        let groups: usize = if start_pos == 0 { (m - m % ratio) / ratio } else { 1 };
        launch(
            q,
            Kernel::AttnPool,
            groups as u32,
            1,
            256,
            1,
            vec![
                Arg::Ptr(if start_pos == 0 { self.buf.ckv } else { kv_state }),
                Arg::Ptr(if start_pos == 0 { self.buf.cscore } else { score_state }),
                Arg::Ptr(self.buf.pooled),
                Arg::U32(ratio as u32),
                Arg::U32(hd as u32),
            ],
        );
        self.rmsnorm(q, true, self.buf.pooled, comp.norm, self.buf.latent, groups, hd);
        assert(q@ =~= old(q)@ + (products + filled_in + self.pool_cmds(
            comp.norm,
            kv_state,
            score_state,
            m as int,
            start_pos as int,
            ratio as int,
        )));
        Ok(Some(groups))
    }

    /// The positions of `groups` new latents: `g * ratio` on prefill, the
    /// group's first position on decode.
    pub fn group_positions(groups: usize, ratio: usize, start_pos: usize) -> (r: Vec<i32>)
        requires
            start_pos == 0 ==> groups * ratio <= usize::MAX,
            start_pos != 0 ==> ratio <= start_pos + 1 <= usize::MAX,
        ensures
            r@ == group_positions_of(groups as int, ratio as int, start_pos as int),
    {
        let starts: Vec<usize> = latent_positions(groups, ratio, start_pos);
        let n: usize = starts.len();
        let mut out: Vec<i32> = Vec::with_capacity(n);
        let ghost want: Seq<i32> = group_positions_of(groups as int, ratio as int, start_pos as int);
        for i in 0..n
            invariant
                n == starts@.len(),
                want == starts@.map_values(|p: usize| p as i32),
                out@ == want.take(i as int),
        {
            out.push(starts[i] as i32);
            assert(out@ =~= want.take(i + 1));
        }
        assert(out@ =~= want);
        out
    }
}

/// The groups that a call completes lie behind those that came before and
/// inside the caches, and they fit into the workspaces.
pub proof fn lemma_groups_in_range(c: &AttnV41Cfg, m: int, start_pos: int, ratio: int)
    requires
        0 < ratio,
        call_in_range(c, m, start_pos),
        completes_group(m, start_pos, ratio),
    ensures
        0 <= start_pos / ratio,
        0 < completed_groups(m, start_pos, ratio) <= m,
        start_pos / ratio + completed_groups(m, start_pos, ratio) <= (start_pos + m) / ratio <= c.max_seq as int / ratio
            <= c.max_seq,
        start_pos == 0 ==> completed_groups(m, start_pos, ratio) * ratio <= m,
        start_pos != 0 ==> ratio <= start_pos + 1,
{
    lemma_prefill_split(m, ratio);
    lemma_prefill_split(start_pos, ratio);
    lemma_prefill_split(start_pos + m, ratio);
    lemma_prefill_split(start_pos + 1, ratio);
    lemma_prefill_split(c.max_seq as int, ratio);
    vstd::arithmetic::div_mod::lemma_div_is_ordered(start_pos + m, c.max_seq as int, ratio);
    vstd::arithmetic::div_mod::lemma_div_is_ordered(start_pos + 1, start_pos + m, ratio);
    if ratio == 1 {
        assert(start_pos / 1 == start_pos && (start_pos + m) / 1 == start_pos + m);
    } else if start_pos == 0 {
        assert(0int / ratio == 0) by (nonlinear_arith)
            requires
                0 < ratio,
        ;
        vstd::arithmetic::div_mod::lemma_div_is_ordered(ratio, m, ratio);
        assert(ratio / ratio == 1) by (nonlinear_arith)
            requires
                0 < ratio,
        ;
    } else {
        let k: int = (start_pos + 1) / ratio;
        assert(k * ratio == start_pos + 1);
        assert(k >= 1) by (nonlinear_arith)
            requires
                k * ratio == start_pos + 1,
                start_pos >= 0,
                ratio > 0,
        ;
        assert(k * ratio >= ratio) by (nonlinear_arith)
            requires
                k >= 1,
                ratio > 0,
        ;
        assert((k - 1) * ratio == k * ratio - ratio) by (nonlinear_arith);
        vstd::arithmetic::div_mod::lemma_fundamental_div_mod_converse(start_pos, ratio, k - 1, ratio - 1);
    }
}

impl AttnV41 {
    /// Why an index source cannot run: `groups` are the groups that this call
    /// completed.
    pub open spec fn indexer_error(
        w: &AttnV41LayerWeights,
        st: &AttnV41LayerState,
        shared: &SharedV41,
        groups: Option<usize>,
    ) -> Option<AttnError> {
        match w.idx {
            None => Some(AttnError::NoIndexerWeights),
            Some(iw) => if groups is Some && st.index_k is Some {
                if iw.wk is None {
                    Some(AttnError::NoIndexWk)
                } else if iw.k_norm is None {
                    Some(AttnError::NoIndexKNorm)
                } else {
                    None
                }
            } else if shared.index_k is None {
                Some(AttnError::NoIndexKeys)
            } else {
                None
            },
        }
    }

    /// The index keys of a call's latents: projected, normed, rotated, through
    /// fp4, and stored behind the earlier ones.
    pub open spec fn index_key_cmds(
        &self,
        wk: DevicePtr,
        k_norm: DevicePtr,
        cache: DevicePtr,
        groups: int,
        start_pos: int,
        ratio: int,
    ) -> Seq<CommandView> {
        let ihd: int = self.cfg.index_hd as int;
        seq![gemmed(self.buf.latent, wk, self.buf.ik_raw, groups, ihd, self.cfg.head_dim as int)] + self.rmsnorm_cmds(
            false,
            self.buf.ik_raw,
            k_norm,
            self.buf.ik,
            groups,
            ihd,
        ) + seq![
            CommandView::Upload {
                data: ints_bytes(group_positions_of(groups, ratio, start_pos)),
                dst: self.buf.grp_pos,
            },
        ] + self.rope_cmds(self.buf.ik, self.buf.grp_pos, groups, ihd, true, false) + self.fp4_quant_cmds(
            self.buf.ik,
            groups * ihd,
            FP4_BLOCK as int,
            false,
        ) + seq![
            CommandView::Synchronize,
            CommandView::CopyD2d {
                src: self.buf.ik,
                dst: offset_by(cache, (start_pos / ratio) * ihd * 2),
                bytes: groups * ihd * 2,
            },
        ]
    }

    /// The index queries: projected, rotated, through fp4; their head weights;
    /// and the scores of all compressed positions.
    pub open spec fn index_score_cmds(
        &self,
        iw: IndexerWeightsGpu,
        index_k: DevicePtr,
        x: DevicePtr,
        m: int,
        start_pos: int,
        ratio: int,
    ) -> Seq<CommandView> {
        let nhi: int = self.cfg.index_heads as int;
        let ihd: int = self.cfg.index_hd as int;
        let width: int = (start_pos + m) / ratio;
        seq![
            gemmed(self.buf.qr, iw.wq_b, self.buf.iq, m, nhi * ihd, self.cfg.q_rank as int),
            CommandView::Upload { data: ints_bytes(token_positions(start_pos, m, nhi)), dst: self.buf.idx_pos },
        ] + self.rope_cmds(self.buf.iq, self.buf.idx_pos, m * nhi, ihd, true, false) + self.fp4_quant_cmds(
            self.buf.iq,
            m * nhi * ihd,
            FP4_BLOCK as int,
            false,
        ) + seq![
            gemmed(x, iw.weights_proj, self.buf.iw_raw, m, nhi, self.cfg.dim as int),
            launched(
                Kernel::AttnScaleBf16,
                div_up_of((m * nhi) as u32, 256),
                1,
                256,
                1,
                seq![
                    Arg::Ptr(self.buf.iw_raw),
                    Arg::Ptr(self.buf.iw),
                    Arg::U32((m * nhi) as u32),
                    Arg::F32(self.index_scale),
                ],
            ),
            launched(
                Kernel::AttnIndexScore,
                div_up_of(width as u32, 256),
                m as u32,
                256,
                1,
                seq![
                    Arg::Ptr(self.buf.iq),
                    Arg::Ptr(index_k),
                    Arg::Ptr(self.buf.iw),
                    Arg::Ptr(self.buf.score),
                    Arg::U32(width as u32),
                    Arg::U32(nhi as u32),
                    Arg::U32(ihd as u32),
                ],
            ),
            CommandView::Synchronize,
        ]
    }

    /// The key cache that an index source reads: its own where this call writes
    /// to it, else the published one.
    pub open spec fn index_keys(
        st: &AttnV41LayerState,
        shared: &SharedV41,
        groups: Option<usize>,
    ) -> Option<DevicePtr> {
        if groups is Some && st.index_k is Some {
            st.index_k
        } else {
            shared.index_k
        }
    }

    /// The device's part of the indexer.
    pub open spec fn indexer_cmds(
        &self,
        w: &AttnV41LayerWeights,
        st: &AttnV41LayerState,
        shared: &SharedV41,
        x: DevicePtr,
        groups: Option<usize>,
        m: int,
        start_pos: int,
    ) -> Seq<CommandView> {
        let iw: IndexerWeightsGpu = w.idx->0;
        let ratio: int = w.role.ratio as int;
        (if groups is Some && st.index_k is Some {
            self.index_key_cmds(iw.wk->0, iw.k_norm->0, st.index_k->0, groups->0 as int, start_pos, ratio)
        } else {
            seq![]
        }) + self.index_score_cmds(iw, Self::index_keys(st, shared, groups)->0, x, m, start_pos, ratio)
    }

    fn store_index_keys(
        &self,
        q: &mut CommandQueue,
        wk: DevicePtr,
        k_norm: DevicePtr,
        cache: DevicePtr,
        groups: usize,
        m: usize,
        start_pos: usize,
        ratio: usize,
    )
        requires
            self.wf(),
            ratio > 0,
            call_in_range(&self.cfg, m as int, start_pos as int),
            completes_group(m as int, start_pos as int, ratio as int),
            groups == completed_groups(m as int, start_pos as int, ratio as int),
            has_room(cache, (self.cfg.max_seq as int / ratio as int) * self.cfg.index_hd * 2),
        ensures
            final(q)@ == old(q)@ + self.index_key_cmds(
                wk,
                k_norm,
                cache,
                groups as int,
                start_pos as int,
                ratio as int,
            ),
    {
        let ihd: usize = self.cfg.index_hd;
        let ghost gi: int = groups as int;
        proof {
            lemma_call_fits(&self.cfg, m as int, start_pos as int);
            lemma_groups_in_range(&self.cfg, m as int, start_pos as int, ratio as int);
            lemma_mul_le(groups as int, m as int, ihd as int);
            lemma_mul_le(0, groups as int, ihd as int);
            lemma_mul_le(start_pos as int / ratio as int, self.cfg.max_seq as int / ratio as int, ihd as int);
            lemma_mul_le(start_pos as int / ratio as int, self.cfg.max_seq as int, ihd as int);
            lemma_mul_le(0, start_pos as int / ratio as int, ihd as int);
        }
        self.gemm(q, self.buf.latent, wk, self.buf.ik_raw, groups, ihd, self.cfg.head_dim);
        let ghost a: Seq<CommandView> = seq![
            gemmed(self.buf.latent, wk, self.buf.ik_raw, gi, ihd as int, self.cfg.head_dim as int),
        ];
        assert(q@ =~= old(q)@ + a);
        self.rmsnorm(q, false, self.buf.ik_raw, k_norm, self.buf.ik, groups, ihd);
        let ghost b: Seq<CommandView> = self.rmsnorm_cmds(false, self.buf.ik_raw, k_norm, self.buf.ik, gi, ihd as int);
        assert(q@ =~= old(q)@ + (a + b));
        let positions: Vec<i32> = Self::group_positions(groups, ratio, start_pos);
        upload_i32(q, self.buf.grp_pos, positions.as_slice());
        let ghost c: Seq<CommandView> = seq![
            CommandView::Upload { data: ints_bytes(positions@), dst: self.buf.grp_pos },
        ];
        assert(q@ =~= old(q)@ + (a + b + c));
        self.rope(q, self.buf.ik, self.buf.grp_pos, groups, ihd, true, false);
        let ghost d: Seq<CommandView> = self.rope_cmds(self.buf.ik, self.buf.grp_pos, gi, ihd as int, true, false);
        assert(q@ =~= old(q)@ + (a + b + c + d));
        self.fp4_quant(q, self.buf.ik, groups * ihd, FP4_BLOCK, false);
        let ghost e: Seq<CommandView> = self.fp4_quant_cmds(self.buf.ik, gi * ihd, FP4_BLOCK as int, false);
        assert(q@ =~= old(q)@ + (a + b + c + d + e));
        q.push(Command::Synchronize);
        q.push(
            Command::CopyD2d {
                src: self.buf.ik,
                dst: at(cache, (start_pos / ratio) * ihd * 2),
                bytes: groups * ihd * 2,
            },
        );
        assert(q@ =~= old(q)@ + self.index_key_cmds(wk, k_norm, cache, gi, start_pos as int, ratio as int));
    }

    fn score_positions(
        &self,
        q: &mut CommandQueue,
        iw: &IndexerWeightsGpu,
        index_k: DevicePtr,
        x: DevicePtr,
        m: usize,
        start_pos: usize,
        ratio: usize,
    )
        requires
            self.wf(),
            ratio > 0,
            call_in_range(&self.cfg, m as int, start_pos as int),
        ensures
            final(q)@ == old(q)@ + self.index_score_cmds(
                *iw,
                index_k,
                x,
                m as int,
                start_pos as int,
                ratio as int,
            ),
    {
        let nhi: usize = self.cfg.index_heads;
        let ihd: usize = self.cfg.index_hd;
        proof {
            lemma_call_fits(&self.cfg, m as int, start_pos as int);
        }
        self.gemm(q, self.buf.qr, iw.wq_b, self.buf.iq, m, nhi * ihd, self.cfg.q_rank);
        let positions: Vec<i32> = repeated_positions(start_pos, m, nhi);
        upload_i32(q, self.buf.idx_pos, positions.as_slice());
        let ghost a: Seq<CommandView> = seq![
            gemmed(self.buf.qr, iw.wq_b, self.buf.iq, m as int, nhi * ihd, self.cfg.q_rank as int),
            CommandView::Upload { data: ints_bytes(positions@), dst: self.buf.idx_pos },
        ];
        assert(q@ =~= old(q)@ + a);
        self.rope(q, self.buf.iq, self.buf.idx_pos, m * nhi, ihd, true, false);
        let ghost b: Seq<CommandView> = self.rope_cmds(
            self.buf.iq,
            self.buf.idx_pos,
            m * nhi,
            ihd as int,
            true,
            false,
        );
        assert(q@ =~= old(q)@ + (a + b));
        self.fp4_quant(q, self.buf.iq, m * nhi * ihd, FP4_BLOCK, false);
        let ghost c: Seq<CommandView> = self.fp4_quant_cmds(self.buf.iq, m * nhi * ihd, FP4_BLOCK as int, false);
        assert(q@ =~= old(q)@ + (a + b + c));
        self.gemm(q, x, iw.weights_proj, self.buf.iw_raw, m, nhi, self.cfg.dim);
        launch(
            q,
            Kernel::AttnScaleBf16,
            div_up((m * nhi) as u32, 256),
            1,
            256,
            1,
            vec![
                Arg::Ptr(self.buf.iw_raw),
                Arg::Ptr(self.buf.iw),
                Arg::U32((m * nhi) as u32),
                Arg::F32(self.index_scale),
            ],
        );
        let width: usize = (start_pos + m) / ratio;
        launch(
            q,
            Kernel::AttnIndexScore,
            div_up(width as u32, 256),
            m as u32,
            256,
            1,
            vec![
                Arg::Ptr(self.buf.iq),
                Arg::Ptr(index_k),
                Arg::Ptr(self.buf.iw),
                Arg::Ptr(self.buf.score),
                Arg::U32(width as u32),
                Arg::U32(nhi as u32),
                Arg::U32(ihd as u32),
            ],
        );
        q.push(Command::Synchronize);
        assert(q@ =~= old(q)@ + self.index_score_cmds(*iw, index_k, x, m as int, start_pos as int, ratio as int));
    }

    /// The device's part of the indexer: stores the index keys of a kv source's
    /// new latents and publishes their cache, then scores the compressed
    /// positions.
    pub(crate) fn indexer(
        &self,
        q: &mut CommandQueue,
        w: &AttnV41LayerWeights,
        st: &AttnV41LayerState,
        shared: &mut SharedV41,
        x: DevicePtr,
        groups: Option<usize>,
        m: usize,
        start_pos: usize,
    ) -> (r: Result<(), AttnError>)
        requires
            self.wf(),
            w.role.ratio > 0,
            call_in_range(&self.cfg, m as int, start_pos as int),
            st.room_for(&self.cfg, w.role.ratio as int),
            groups is Some ==> groups == Self::latent_groups(m as int, start_pos as int, w.role.ratio as int),
        ensures
            match Self::indexer_error(w, st, old(shared), groups) {
                Some(e) => r == Err::<(), AttnError>(e) && final(q)@ == old(q)@ && *final(shared) == *old(shared),
                None => {
                    &&& r is Ok
                    &&& final(q)@ == old(q)@ + self.indexer_cmds(
                        w,
                        st,
                        old(shared),
                        x,
                        groups,
                        m as int,
                        start_pos as int,
                    )
                    &&& *final(shared) == (SharedV41 {
                        index_k: Self::index_keys(st, old(shared), groups),
                        ..*old(shared)
                    })
                },
            },
    {
        let iw: IndexerWeightsGpu = match w.idx {
            Some(iw) => iw,
            None => {
                return Err(AttnError::NoIndexerWeights);
            },
        };
        let ratio: usize = w.role.ratio;
        if let (Some(n), Some(cache)) = (groups, st.index_k) {
            let wk: DevicePtr = match iw.wk {
                Some(wk) => wk,
                None => {
                    return Err(AttnError::NoIndexWk);
                },
            };
            let k_norm: DevicePtr = match iw.k_norm {
                Some(k_norm) => k_norm,
                None => {
                    return Err(AttnError::NoIndexKNorm);
                },
            };
            proof {
                lemma_groups_in_range(&self.cfg, m as int, start_pos as int, ratio as int);
            }
            self.store_index_keys(q, wk, k_norm, cache, n, m, start_pos, ratio);
            shared.index_k = Some(cache);
        }
        let index_k: DevicePtr = match shared.index_k {
            Some(index_k) => index_k,
            None => {
                return Err(AttnError::NoIndexKeys);
            },
        };
        self.score_positions(q, &iw, index_k, x, m, start_pos, ratio);
        assert(q@ =~= old(q)@ + self.indexer_cmds(w, st, old(shared), x, groups, m as int, start_pos as int));
        Ok(())
    }
}

} // verus!
