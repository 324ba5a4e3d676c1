//! DeepSeek-V4.1 Flash attention: one forward for every layer.
//!
//! Three kinds of attention layer are told apart by their compression ratio.
//! Ratio 0 attends over a sliding window of its own latent rows. Ratio 1 and
//! above attend over that window plus compressed positions, chosen by an
//! indexer from a latent cache that only the kv sources write. Index sources
//! compute the selection; the layers below them reuse it. A candidate source
//! also publishes a block-level mask that later index sources respect.
//!
//! [`AttnV41::forward`] issues the work up to the index scores;
//! [`AttnV41::finish`] takes the scores, selects, and issues the rest.

use crate::attn_cfg::{
    AttnError, AttnV41, AttnV41Buffers, AttnV41Cfg, AttnV41LayerState, AttnV41LayerWeights, AttnV41Layout, SharedV41,
    MAX_TOPK,
};
use crate::attn_steps::{
    call_in_range, gemmed, group_positions_of, lemma_call_fits, lemma_groups_in_range, lemma_prefill_split,
    repeated_positions, token_positions, upload_i32,
};
use crate::bytes::{f32_bytes, f32_from_bytes, ints_bytes, words_bytes, words_of};
use crate::compress::{completed_groups, completes_group, merge_index, merged_index, LATENT_BLOCK};
use crate::device::{
    at, free_each, freed, has_room, kernel_source_of, launch, launched, offset_by, Arg, Command, CommandQueue, CommandView,
    DevicePtr, Kernel, KernelModule,
};
use crate::index_select::{index_ready, index_selection_if_settled, lemma_index_table_len, IndexRequest, IndexSelection};
use crate::rows::{concat_rows, copied, lemma_append_all, lemma_mul_le, lemma_row_bounds};
use vstd::prelude::*;

verus! {

/// What [`AttnV41::forward`] leaves to be finished once its commands ran.
#[derive(Clone, Copy, Debug, PartialEq, Eq, Structural)]
pub struct AttnPending {
    pub m: usize,
    pub start_pos: usize,
    /// window rows: the call's own on prefill, the ring on decode
    pub rows_a: DevicePtr,
    pub rows_a_len: usize,
    /// the groups that the call completed, on a kv source
    pub groups: Option<usize>,
    /// how many bytes of scores are to be read back, where the layer selects
    pub score_bytes: Option<usize>,
}

impl AttnV41 {
    /// The queries and the latent rows of a call: projected, normed, rotated;
    /// the rows also through fp8.
    pub open spec fn project_cmds(&self, w: &AttnV41LayerWeights, x: DevicePtr, m: int, start_pos: int) -> Seq<
        CommandView,
    > {
        let c: AttnV41Cfg = self.cfg;
        let nh: int = c.n_heads as int;
        let hd: int = c.head_dim as int;
        let yarn: bool = w.role.ratio > 0;
        seq![
            CommandView::Upload { data: ints_bytes(token_positions(start_pos, m, 1)), dst: self.buf.pos },
            CommandView::Upload { data: ints_bytes(token_positions(start_pos, m, nh)), dst: self.buf.head_pos },
            gemmed(x, w.wq_a, self.buf.qr_raw, m, c.q_rank as int, c.dim as int),
        ] + self.rmsnorm_cmds(false, self.buf.qr_raw, w.q_norm, self.buf.qr, m, c.q_rank as int) + seq![
            gemmed(self.buf.qr, w.wq_b, self.buf.q, m, nh * hd, c.q_rank as int),
        ] + self.rope_cmds(self.buf.q, self.buf.head_pos, m * nh, hd, yarn, false) + seq![
            gemmed(x, w.wkv, self.buf.kv_raw, m, hd, c.dim as int),
        ] + self.rmsnorm_cmds(false, self.buf.kv_raw, w.kv_norm, self.buf.kv, m, hd) + self.rope_cmds(
            self.buf.kv,
            self.buf.pos,
            m,
            hd,
            yarn,
            false,
        ) + self.act_quant_cmds(self.buf.kv, m * hd) + seq![CommandView::Synchronize]
    }

    /// The latent rows of a call go into the ring: position `p` to slot
    /// `p % window`.
    pub open spec fn window_cmds(&self, window: DevicePtr, m: int, start_pos: int) -> Seq<CommandView> {
        let win: int = self.cfg.window as int;
        let row: int = self.cfg.head_dim * 2;
        if start_pos == 0 && m <= win {
            seq![CommandView::CopyD2d { src: self.buf.kv, dst: window, bytes: m * row }]
        } else if start_pos == 0 {
            let cutoff: int = m % win;
            seq![
                CommandView::CopyD2d {
                    src: offset_by(self.buf.kv, (m - win) * row),
                    dst: offset_by(window, cutoff * row),
                    bytes: (win - cutoff) * row,
                },
                CommandView::CopyD2d {
                    src: offset_by(self.buf.kv, (m - win) * row + (win - cutoff) * row),
                    dst: window,
                    bytes: cutoff * row,
                },
            ]
        } else {
            seq![
                CommandView::CopyD2d {
                    src: self.buf.kv,
                    dst: offset_by(window, (start_pos % win) * row),
                    bytes: row,
                },
            ]
        }
    }

    /// The groups that a call of this layer completes.
    pub open spec fn call_groups(w: &AttnV41LayerWeights, m: int, start_pos: int) -> Option<usize> {
        if w.role.ratio > 0 && w.role.is_kv_source {
            Self::latent_groups(m, start_pos, w.role.ratio as int)
        } else {
            None
        }
    }

    /// The layer selects positions of its own in this call.
    pub open spec fn selects(w: &AttnV41LayerWeights, m: int, start_pos: int) -> bool {
        &&& w.role.ratio > 0
        &&& w.role.is_index_source
        &&& (start_pos + m) / w.role.ratio as int != 0
    }

    /// Why a call is refused before the scores are known.
    pub open spec fn forward_error(
        &self,
        w: &AttnV41LayerWeights,
        st: &AttnV41LayerState,
        shared: &SharedV41,
        m: usize,
        start_pos: usize,
    ) -> Option<AttnError> {
        if !(1 <= m <= self.cfg.max_tokens) {
            Some(AttnError::Tokens { m, max_tokens: self.cfg.max_tokens })
        } else if start_pos + m > self.cfg.max_seq {
            Some(AttnError::Position { end: (start_pos + m) as usize, max_seq: self.cfg.max_seq })
        } else if w.role.ratio > 0 && w.role.is_kv_source && Self::compressor_error(w, st) is Some {
            Self::compressor_error(w, st)
        } else if Self::selects(w, m as int, start_pos as int) {
            Self::indexer_error(w, st, shared, Self::call_groups(w, m as int, start_pos as int))
        } else {
            None
        }
    }

    /// The compressor of this layer gets to run.
    pub open spec fn compresses(&self, w: &AttnV41LayerWeights, st: &AttnV41LayerState, m: int, start_pos: int) -> bool {
        &&& call_in_range(&self.cfg, m, start_pos)
        &&& w.role.ratio > 0
        &&& w.role.is_kv_source
        &&& Self::compressor_error(w, st) is None
    }

    /// What a call issues before the scores are known; a refused call issues
    /// what comes before the refusal.
    pub open spec fn forward_cmds(
        &self,
        w: &AttnV41LayerWeights,
        st: &AttnV41LayerState,
        shared: &SharedV41,
        x: DevicePtr,
        m: int,
        start_pos: int,
    ) -> Seq<CommandView> {
        if !call_in_range(&self.cfg, m, start_pos) {
            seq![]
        } else {
            self.project_cmds(w, x, m, start_pos) + self.window_cmds(st.window, m, start_pos) + if self.compresses(
                w,
                st,
                m,
                start_pos,
            ) {
                self.compressor_cmds(w, st, x, m, start_pos)
            } else {
                seq![]
            } + if Self::selects(w, m, start_pos) && self.forward_error(
                w,
                st,
                shared,
                m as usize,
                start_pos as usize,
            ) is None {
                self.indexer_cmds(w, st, shared, x, Self::call_groups(w, m, start_pos), m, start_pos)
            } else {
                seq![]
            }
        }
    }

    /// What is published before the scores are known: a kv source's caches, and
    /// how many groups the earlier calls left in them.
    pub open spec fn forward_shared(
        &self,
        w: &AttnV41LayerWeights,
        st: &AttnV41LayerState,
        shared: &SharedV41,
        m: usize,
        start_pos: usize,
    ) -> SharedV41 {
        SharedV41 {
            compress_kv: if self.compresses(w, st, m as int, start_pos as int) {
                st.compress_kv
            } else {
                shared.compress_kv
            },
            compress_len: if self.compresses(w, st, m as int, start_pos as int) {
                start_pos / w.role.ratio
            } else {
                shared.compress_len
            },
            index_k: if Self::selects(w, m as int, start_pos as int) && self.forward_error(
                w,
                st,
                shared,
                m,
                start_pos,
            ) is None {
                Self::index_keys(st, shared, Self::call_groups(w, m as int, start_pos as int))
            } else {
                shared.index_k
            },
            ..*shared
        }
    }

    /// What is left to be finished.
    pub open spec fn pending_of(
        &self,
        w: &AttnV41LayerWeights,
        st: &AttnV41LayerState,
        m: usize,
        start_pos: usize,
    ) -> AttnPending {
        AttnPending {
            m,
            start_pos,
            rows_a: if start_pos == 0 {
                self.buf.kv
            } else {
                st.window
            },
            rows_a_len: if start_pos == 0 {
                m
            } else {
                self.cfg.window
            },
            groups: Self::call_groups(w, m as int, start_pos as int),
            score_bytes: if Self::selects(w, m as int, start_pos as int) {
                Some((m * ((start_pos + m) / w.role.ratio as int) * 4) as usize)
            } else {
                None
            },
        }
    }

    fn project(&self, q: &mut CommandQueue, w: &AttnV41LayerWeights, x: DevicePtr, m: usize, start_pos: usize)
        requires
            self.wf(),
            call_in_range(&self.cfg, m as int, start_pos as int),
        ensures
            final(q)@ == old(q)@ + self.project_cmds(w, x, m as int, start_pos as int),
    {
        let c: &AttnV41Cfg = &self.cfg;
        let nh: usize = c.n_heads;
        let hd: usize = c.head_dim;
        let yarn: bool = w.role.ratio > 0;
        proof {
            lemma_call_fits(&self.cfg, m as int, start_pos as int);
        }
        let pos: Vec<i32> = repeated_positions(start_pos, m, 1);
        let hpos: Vec<i32> = repeated_positions(start_pos, m, nh);
        upload_i32(q, self.buf.pos, pos.as_slice());
        upload_i32(q, self.buf.head_pos, hpos.as_slice());
        self.gemm(q, x, w.wq_a, self.buf.qr_raw, m, c.q_rank, c.dim);
        let ghost s1: Seq<CommandView> = seq![
            CommandView::Upload { data: ints_bytes(pos@), dst: self.buf.pos },
            CommandView::Upload { data: ints_bytes(hpos@), dst: self.buf.head_pos },
            gemmed(x, w.wq_a, self.buf.qr_raw, m as int, c.q_rank as int, c.dim as int),
        ];
        assert(q@ =~= old(q)@ + s1);
        self.rmsnorm(q, false, self.buf.qr_raw, w.q_norm, self.buf.qr, m, c.q_rank);
        self.gemm(q, self.buf.qr, w.wq_b, self.buf.q, m, nh * hd, c.q_rank);
        let ghost s2: Seq<CommandView> = s1 + self.rmsnorm_cmds(
            false,
            self.buf.qr_raw,
            w.q_norm,
            self.buf.qr,
            m as int,
            c.q_rank as int,
        ) + seq![gemmed(self.buf.qr, w.wq_b, self.buf.q, m as int, nh * hd, c.q_rank as int)];
        assert(q@ =~= old(q)@ + s2);
        self.rope(q, self.buf.q, self.buf.head_pos, m * nh, hd, yarn, false);
        self.gemm(q, x, w.wkv, self.buf.kv_raw, m, hd, c.dim);
        let ghost s3: Seq<CommandView> = s2 + self.rope_cmds(
            self.buf.q,
            self.buf.head_pos,
            m * nh,
            hd as int,
            yarn,
            false,
        ) + seq![gemmed(x, w.wkv, self.buf.kv_raw, m as int, hd as int, c.dim as int)];
        assert(q@ =~= old(q)@ + s3);
        self.rmsnorm(q, false, self.buf.kv_raw, w.kv_norm, self.buf.kv, m, hd);
        self.rope(q, self.buf.kv, self.buf.pos, m, hd, yarn, false);
        let ghost s4: Seq<CommandView> = s3 + self.rmsnorm_cmds(
            false,
            self.buf.kv_raw,
            w.kv_norm,
            self.buf.kv,
            m as int,
            hd as int,
        ) + self.rope_cmds(self.buf.kv, self.buf.pos, m as int, hd as int, yarn, false);
        assert(q@ =~= old(q)@ + s4);
        self.act_quant(q, self.buf.kv, m * hd);
        q.push(Command::Synchronize);
        assert(q@ =~= old(q)@ + self.project_cmds(w, x, m as int, start_pos as int));
    }

    fn fill_window(&self, q: &mut CommandQueue, window: DevicePtr, m: usize, start_pos: usize)
        requires
            self.wf(),
            call_in_range(&self.cfg, m as int, start_pos as int),
            self.cfg.window > 0,
            has_room(window, self.cfg.window * self.cfg.head_dim * 2),
        ensures
            final(q)@ == old(q)@ + self.window_cmds(window, m as int, start_pos as int),
    {
        proof {
            lemma_call_fits(&self.cfg, m as int, start_pos as int);
        }
        let win: usize = self.cfg.window;
        let row: usize = self.cfg.head_dim * 2;
        assert(m * row == m * self.cfg.head_dim * 2 && win * row == win * self.cfg.head_dim * 2 && self.cfg.max_tokens
            * row == self.cfg.max_tokens * self.cfg.head_dim * 2) by (nonlinear_arith)
            requires
                row == self.cfg.head_dim * 2,
        ;
        if start_pos == 0 {
            if m <= win {
                q.push(Command::CopyD2d { src: self.buf.kv, dst: window, bytes: m * row });
            } else {
                let cutoff: usize = m % win;
                proof {
                    lemma_mul_le(cutoff as int, win as int, row as int);
                    lemma_mul_le(0, cutoff as int, row as int);
                    lemma_mul_le(win - cutoff, win as int, row as int);
                    lemma_mul_le(0, win - cutoff, row as int);
                    lemma_mul_le(m - win, m as int, row as int);
                    lemma_mul_le(0, m - win, row as int);
                    assert((m - win) * row + (win - cutoff) * row == (m - cutoff) * row) by (nonlinear_arith);
                    lemma_mul_le(m - cutoff, m as int, row as int);
                }
                let tail: DevicePtr = at(self.buf.kv, (m - win) * row);
                q.push(
                    Command::CopyD2d { src: tail, dst: at(window, cutoff * row), bytes: (win - cutoff) * row },
                );
                q.push(Command::CopyD2d { src: at(tail, (win - cutoff) * row), dst: window, bytes: cutoff * row });
            }
        } else {
            let slot: usize = start_pos % win;
            proof {
                lemma_row_bounds(slot as int, win as int, row as int);
            }
            q.push(Command::CopyD2d { src: self.buf.kv, dst: at(window, slot * row), bytes: row });
        }
        assert(q@ =~= old(q)@ + self.window_cmds(window, m as int, start_pos as int));
    }

    /// The first half of one layer's attention for `m` tokens at `start_pos`:
    /// up to the index scores, where the layer selects; `x` is the normed input
    /// `[m, dim]` in bf16.
    pub fn forward(
        &self,
        q: &mut CommandQueue,
        w: &AttnV41LayerWeights,
        st: &AttnV41LayerState,
        shared: &mut SharedV41,
        x: DevicePtr,
        m: usize,
        start_pos: usize,
    ) -> (r: Result<AttnPending, AttnError>)
        requires
            self.wf(),
            1 <= m <= self.cfg.max_tokens ==> start_pos + m <= usize::MAX,
            call_in_range(&self.cfg, m as int, start_pos as int) ==> {
                &&& self.cfg.window > 0
                &&& has_room(st.window, self.cfg.window * self.cfg.head_dim * 2)
                &&& w.role.ratio > 0 ==> st.room_for(&self.cfg, w.role.ratio as int)
            },
        ensures
            r == match self.forward_error(w, st, old(shared), m, start_pos) {
                Some(e) => Err::<AttnPending, AttnError>(e),
                None => Ok::<AttnPending, AttnError>(self.pending_of(w, st, m, start_pos)),
            },
            final(q)@ == old(q)@ + self.forward_cmds(w, st, old(shared), x, m as int, start_pos as int),
            *final(shared) == self.forward_shared(w, st, old(shared), m, start_pos),
    {
        let c: &AttnV41Cfg = &self.cfg;
        let ghost none: Seq<CommandView> = seq![];
        let ghost base: Seq<CommandView> = q@;
        assert(base + none =~= base);
        if m < 1 || m > c.max_tokens {
            return Err(AttnError::Tokens { m, max_tokens: c.max_tokens });
        }
        if start_pos + m > c.max_seq {
            return Err(AttnError::Position { end: start_pos + m, max_seq: c.max_seq });
        }
        let ghost s1: Seq<CommandView> = self.project_cmds(w, x, m as int, start_pos as int);
        let ghost s2: Seq<CommandView> = self.window_cmds(st.window, m as int, start_pos as int);
        let ghost s3: Seq<CommandView> = if self.compresses(w, st, m as int, start_pos as int) {
            self.compressor_cmds(w, st, x, m as int, start_pos as int)
        } else {
            none
        };
        let ghost s4: Seq<CommandView> = if Self::selects(w, m as int, start_pos as int) && self.forward_error(
            w,
            st,
            old(shared),
            m,
            start_pos,
        ) is None {
            self.indexer_cmds(
                w,
                st,
                old(shared),
                x,
                Self::call_groups(w, m as int, start_pos as int),
                m as int,
                start_pos as int,
            )
        } else {
            none
        };
        self.project(q, w, x, m, start_pos);
        self.fill_window(q, st.window, m, start_pos);
        proof {
            assert(self.forward_cmds(w, st, old(shared), x, m as int, start_pos as int) == s1 + s2 + s3 + s4);
            lemma_append_all(base, s1, s2, s3, s4);
            assert(base + s1 + s2 + none =~= base + s1 + s2);
            assert(base + s1 + s2 + s3 + none =~= base + s1 + s2 + s3);
        }
        assert(q@ == base + s1 + s2);
        let rows_a: DevicePtr = if start_pos == 0 { self.buf.kv } else { st.window };
        let rows_a_len: usize = if start_pos == 0 { m } else { c.window };
        let ratio: usize = w.role.ratio;
        if ratio == 0 {
            return Ok(AttnPending { m, start_pos, rows_a, rows_a_len, groups: None, score_bytes: None });
        }
        let compress_len: usize = (start_pos + m) / ratio;
        let mut groups: Option<usize> = None;
        if w.role.is_kv_source {
            match self.compressor(q, w, st, x, m, start_pos) {
                Ok(n) => {
                    groups = n;
                },
                Err(e) => {
                    return Err(e);
                },
            }
            shared.compress_kv = st.compress_kv;
            shared.compress_len = start_pos / ratio;
        }
        assert(q@ == base + s1 + s2 + s3);
        if !w.role.is_index_source || compress_len == 0 {
            return Ok(AttnPending { m, start_pos, rows_a, rows_a_len, groups, score_bytes: None });
        }
        match self.indexer(q, w, st, shared, x, groups, m, start_pos) {
            Ok(_) => {},
            Err(e) => {
                return Err(e);
            },
        }
        assert(q@ == base + s1 + s2 + s3 + s4);
        proof {
            lemma_score_fits(c, m as int, start_pos as int, ratio as int);
        }
        Ok(
            AttnPending {
                m,
                start_pos,
                rows_a,
                rows_a_len,
                groups,
                score_bytes: Some(m * compress_len * 4),
            },
        )
    }
}

/// The index scores of any call that is accepted fit into their workspace.
pub proof fn lemma_score_fits(c: &AttnV41Cfg, m: int, start_pos: int, ratio: int)
    requires
        c.fits(),
        0 < ratio,
        call_in_range(c, m, start_pos),
    ensures
        0 <= (start_pos + m) / ratio <= c.max_seq,
        0 <= m * ((start_pos + m) / ratio) <= m * ((start_pos + m) / ratio) * 4 <= c.layout_of().score <= usize::MAX,
        ((start_pos + m) / ratio) * m <= c.max_seq * c.max_tokens,
{
    let width: int = (start_pos + m) / ratio;
    lemma_prefill_split(start_pos + m, ratio);
    lemma_mul_le(0, m, width);
    lemma_mul_le(width, c.max_seq as int, m);
    lemma_mul_le(m, c.max_tokens as int, c.max_seq as int);
    assert(m * width == width * m) by (nonlinear_arith);
}

/// The intermediates of one layer's forward.
#[derive(Clone, Debug, PartialEq, Eq)]
pub struct AttnV41Run {
    /// bf16 `[tokens, n_heads, hd]`, after the rotation
    pub q: DevicePtr,
    /// window rows: the call's own on prefill, the ring on decode
    pub rows_a: DevicePtr,
    pub rows_a_len: usize,
    /// compressed rows, in the kv source's cache, and how many are attended
    pub rows_b: Option<DevicePtr>,
    pub rows_b_len: usize,
    /// `[tokens][topk]`, window slots, then compressed positions offset by `rows_a_len`
    pub idx: Vec<i32>,
    pub topk: usize,
    /// bf16 `[tokens, n_heads, hd]`, before the inverse rotation
    pub o: DevicePtr,
    /// bf16 `[tokens, dim]`
    pub out: DevicePtr,
}

impl AttnV41 {
    /// The selection that a call asks for.
    pub open spec fn request_of(&self, w: &AttnV41LayerWeights, p: AttnPending) -> IndexRequest {
        IndexRequest {
            m: p.m,
            start_pos: p.start_pos,
            offset: p.rows_a_len,
            ratio: w.role.ratio,
            index_topk: self.cfg.index_topk,
            cand_topk_blocks: self.cfg.cand_topk_blocks,
            cand_block: self.cfg.cand_block,
            is_candidate_source: w.role.is_candidate_source,
            uses_candidates: w.role.uses_candidates,
        }
    }

    /// The layer respects candidates, and the published mask is for another
    /// call.
    pub open spec fn mask_is_stale(w: &AttnV41LayerWeights, shared: &SharedV41, p: AttnPending) -> bool {
        &&& Self::selects(w, p.m as int, p.start_pos as int)
        &&& !w.role.is_candidate_source
        &&& w.role.uses_candidates
        &&& shared.candidates@.len() != p.m * ((p.start_pos + p.m) / w.role.ratio as int)
    }

    /// The compressed positions that the layer attends: its own selection, none
    /// before the first group is complete, or those of the last index source
    /// above it.
    pub open spec fn attended(
        &self,
        w: &AttnV41LayerWeights,
        shared: &SharedV41,
        p: AttnPending,
        score: Seq<u32>,
    ) -> (Seq<i32>, int) {
        if w.role.ratio == 0 {
            (Seq::empty(), 0)
        } else if !w.role.is_index_source {
            (shared.topk_idxs@, shared.topk as int)
        } else if !Self::selects(w, p.m as int, p.start_pos as int) {
            (Seq::empty(), 0)
        } else {
            (self.request_of(w, p).index_table(score, shared.candidates@), self.request_of(w, p).topk())
        }
    }

    /// Why a call is refused once the scores are known.
    pub open spec fn finish_error(
        &self,
        w: &AttnV41LayerWeights,
        st: &AttnV41LayerState,
        shared: &SharedV41,
        p: AttnPending,
        score: Seq<u32>,
        window_topk: int,
    ) -> Option<AttnError> {
        let attended: (Seq<i32>, int) = self.attended(w, shared, p, score);
        if Self::mask_is_stale(w, shared, p) {
            Some(
                AttnError::CandidateMask {
                    held: shared.candidates@.len() as usize,
                    m: p.m,
                    width: ((p.start_pos + p.m) / w.role.ratio as int) as usize,
                },
            )
        } else if p.groups is Some && st.compress_kv is None {
            Some(AttnError::NoLatentCache)
        } else if w.role.ratio > 0 && p.groups is None && shared.compress_kv is None {
            Some(AttnError::NoCompressedRows)
        } else if attended.0.len() != p.m * attended.1 {
            Some(
                AttnError::IndexSelection { held: attended.0.len() as usize, m: p.m, topk: attended.1 as usize },
            )
        } else if !(window_topk + attended.1 <= self.cfg.window + self.cfg.index_topk && window_topk + attended.1
            <= MAX_TOPK) {
            Some(AttnError::Topk { topk: (window_topk + attended.1) as usize })
        } else {
            None
        }
    }

    /// The latents of a call: rotated, through fp4, and stored behind the
    /// earlier ones.
    pub open spec fn latent_cmds(&self, cache: DevicePtr, groups: int, start_pos: int, ratio: int) -> Seq<CommandView> {
        let hd: int = self.cfg.head_dim as int;
        seq![
            CommandView::Upload {
                data: ints_bytes(group_positions_of(groups, ratio, start_pos)),
                dst: self.buf.grp_pos,
            },
        ] + self.rope_cmds(self.buf.latent, self.buf.grp_pos, groups, hd, true, false) + self.fp4_quant_cmds(
            self.buf.latent,
            groups * hd,
            LATENT_BLOCK as int,
            true,
        ) + seq![
            CommandView::Synchronize,
            CommandView::CopyD2d {
                src: self.buf.latent,
                dst: offset_by(cache, (start_pos / ratio) * (hd * 2)),
                bytes: groups * (hd * 2),
            },
        ]
    }

    /// Group `g` of the output projection: its columns of the attention output,
    /// projected, into its columns of the low-rank output.
    pub open spec fn group_cmds(&self, w: &AttnV41LayerWeights, m: int, g: int) -> Seq<CommandView> {
        let c: AttnV41Cfg = self.cfg;
        let gw: int = c.group_width();
        let rank: int = c.o_rank as int;
        seq![
            launched(
                Kernel::AttnSliceCols,
                m as u32,
                1,
                256,
                1,
                seq![
                    Arg::Ptr(self.buf.o_rot),
                    Arg::Ptr(self.buf.slice_in),
                    Arg::U32((c.n_heads * c.head_dim) as u32),
                    Arg::U32((g * gw) as u32),
                    Arg::U32(gw as u32),
                ],
            ),
            gemmed(self.buf.slice_in, offset_by(w.wo_a, g * rank * gw * 2), self.buf.slice_out, m, rank, gw),
            launched(
                Kernel::AttnScatterCols,
                m as u32,
                1,
                256,
                1,
                seq![
                    Arg::Ptr(self.buf.slice_out),
                    Arg::Ptr(self.buf.og),
                    Arg::U32((c.groups * rank) as u32),
                    Arg::U32((g * rank) as u32),
                    Arg::U32(rank as u32),
                ],
            ),
        ]
    }

    /// Sparse attention with the sink, the inverse rotation on a copy, and the
    /// grouped output projection.
    pub open spec fn attend_cmds(
        &self,
        w: &AttnV41LayerWeights,
        p: AttnPending,
        rows_b: Option<DevicePtr>,
        idx: Seq<i32>,
        topk: int,
    ) -> Seq<CommandView> {
        let c: AttnV41Cfg = self.cfg;
        let m: int = p.m as int;
        let nh: int = c.n_heads as int;
        let hd: int = c.head_dim as int;
        seq![
            CommandView::Upload { data: ints_bytes(idx), dst: self.buf.idx_dev },
            launched(
                Kernel::AttnSparseAttn,
                m as u32,
                nh as u32,
                256,
                1,
                seq![
                    Arg::Ptr(self.buf.q),
                    Arg::Ptr(p.rows_a),
                    Arg::Ptr(
                        match rows_b {
                            Some(b) => b,
                            None => p.rows_a,
                        },
                    ),
                    Arg::U32(p.rows_a_len as u32),
                    Arg::Ptr(self.buf.idx_dev),
                    Arg::Ptr(w.sink),
                    Arg::Ptr(self.buf.o),
                    Arg::U32(nh as u32),
                    Arg::U32(hd as u32),
                    Arg::U32(topk as u32),
                    Arg::F32(self.attn_scale),
                ],
            ),
            CommandView::Synchronize,
            CommandView::CopyD2d { src: self.buf.o, dst: self.buf.o_rot, bytes: m * nh * hd * 2 },
        ] + self.rope_cmds(self.buf.o_rot, self.buf.head_pos, m * nh, hd, w.role.ratio > 0, true) + concat_rows(
            c.groups as nat,
            |g: int| self.group_cmds(w, m, g),
        ) + seq![
            gemmed(self.buf.og, w.wo_b, self.buf.out, m, c.dim as int, c.groups * c.o_rank),
            CommandView::Synchronize,
        ]
    }

    /// The compressed rows that the layer reads.
    pub open spec fn compressed_rows(
        w: &AttnV41LayerWeights,
        st: &AttnV41LayerState,
        shared: &SharedV41,
        p: AttnPending,
    ) -> Option<DevicePtr> {
        if w.role.ratio == 0 {
            None
        } else if p.groups is Some {
            st.compress_kv
        } else {
            shared.compress_kv
        }
    }

    /// The positions that are attended: the window slots, then, on a compressed
    /// layer, the compressed positions.
    pub open spec fn attended_idx(
        &self,
        w: &AttnV41LayerWeights,
        shared: &SharedV41,
        p: AttnPending,
        score: Seq<u32>,
        window_idx: Seq<i32>,
        window_topk: int,
    ) -> Seq<i32> {
        let attended: (Seq<i32>, int) = self.attended(w, shared, p, score);
        if w.role.ratio == 0 {
            window_idx
        } else {
            merged_index(window_idx, window_topk, attended.0, attended.1, p.m as int)
        }
    }

    /// What a call issues once the scores are known; a refused call issues what
    /// comes before the refusal.
    pub open spec fn finish_cmds(
        &self,
        w: &AttnV41LayerWeights,
        st: &AttnV41LayerState,
        shared: &SharedV41,
        p: AttnPending,
        score: Seq<u32>,
        window_idx: Seq<i32>,
        window_topk: int,
    ) -> Seq<CommandView> {
        (if p.groups is Some && st.compress_kv is Some && !Self::mask_is_stale(w, shared, p) {
            self.latent_cmds(st.compress_kv->0, p.groups->0 as int, p.start_pos as int, w.role.ratio as int)
        } else {
            seq![]
        }) + if self.finish_error(w, st, shared, p, score, window_topk) is None {
            self.attend_cmds(
                w,
                p,
                Self::compressed_rows(w, st, shared, p),
                self.attended_idx(w, shared, p, score, window_idx, window_topk),
                window_topk + self.attended(w, shared, p, score).1,
            )
        } else {
            seq![]
        }
    }

    /// What is published once the scores are known: the layer's own selection and
    /// candidates, and the latents that it stored.
    pub open spec fn finish_publishes(
        &self,
        w: &AttnV41LayerWeights,
        st: &AttnV41LayerState,
        before: SharedV41,
        p: AttnPending,
        score: Seq<u32>,
        after: SharedV41,
    ) -> bool {
        let stale: bool = Self::mask_is_stale(w, &before, p);
        let selects: bool = Self::selects(w, p.m as int, p.start_pos as int) && !stale;
        let publishes: bool = selects && w.role.is_candidate_source;
        let stores: bool = p.groups is Some && st.compress_kv is Some && !stale;
        let req: IndexRequest = self.request_of(w, p);
        let attended: (Seq<i32>, int) = self.attended(w, &before, p, score);
        &&& after.index_k == before.index_k
        &&& after.topk_idxs@ == if selects {
            attended.0
        } else {
            before.topk_idxs@
        }
        &&& after.topk == if selects {
            attended.1
        } else {
            before.topk as int
        }
        &&& after.candidates@ == if publishes {
            req.published_candidates(score)
        } else {
            before.candidates@
        }
        &&& after.cand_width == if publishes {
            req.width()
        } else {
            before.cand_width as int
        }
        &&& after.compress_kv == if stores {
            st.compress_kv
        } else {
            before.compress_kv
        }
        &&& after.compress_len == if stores {
            p.start_pos as int / w.role.ratio as int + p.groups->0
        } else {
            before.compress_len as int
        }
    }

    /// The inputs that a call is finished with: what [`AttnV41::forward`] left,
    /// the scores where the layer selects, and window slots for every query.
    /// Where the published mask is usable, the selections settle.
    pub open spec fn finish_in_range(
        &self,
        w: &AttnV41LayerWeights,
        st: &AttnV41LayerState,
        shared: &SharedV41,
        p: AttnPending,
        score: Seq<u8>,
        window_idx: Seq<i32>,
        window_topk: int,
    ) -> bool {
        &&& self.wf()
        &&& call_in_range(&self.cfg, p.m as int, p.start_pos as int)
        &&& w.role.ratio > 0 ==> st.room_for(&self.cfg, w.role.ratio as int)
        &&& has_room(w.wo_a, self.cfg.groups * self.cfg.o_rank * self.cfg.group_width() * 2)
        &&& p == self.pending_of(w, st, p.m, p.start_pos)
        &&& p.score_bytes matches Some(n) ==> score.len() == n
        &&& window_idx.len() == p.m * window_topk
        &&& p.m * shared.topk <= usize::MAX
        &&& window_topk + shared.topk <= usize::MAX
        &&& window_topk + self.cfg.index_topk <= usize::MAX
        &&& Self::selects(w, p.m as int, p.start_pos as int) && !Self::mask_is_stale(w, shared, p) ==> {
            &&& self.request_of(w, p).in_range(words_of(score).len() as int, shared.candidates@.len() as int)
            &&& self.request_of(w, p).settles(words_of(score), shared.candidates@)
        }
    }

    fn request(&self, w: &AttnV41LayerWeights, p: &AttnPending) -> (r: IndexRequest)
        ensures
            r == self.request_of(w, *p),
    {
        IndexRequest {
            m: p.m,
            start_pos: p.start_pos,
            offset: p.rows_a_len,
            ratio: w.role.ratio,
            index_topk: self.cfg.index_topk,
            cand_topk_blocks: self.cfg.cand_topk_blocks,
            cand_block: self.cfg.cand_block,
            is_candidate_source: w.role.is_candidate_source,
            uses_candidates: w.role.uses_candidates,
        }
    }

    /// Whether the selection of a layer that selects can be made from its
    /// scores.
    pub fn selection_ready(&self, w: &AttnV41LayerWeights, shared: &SharedV41, p: &AttnPending, score: &[u8]) -> (r:
        bool)
        ensures
            r == (self.request_of(w, *p).in_range(words_of(score@).len() as int, shared.candidates@.len() as int)
                && self.request_of(w, *p).settles(words_of(score@), shared.candidates@)),
    {
        let words: Vec<u32> = f32_from_bytes(score);
        let req: IndexRequest = self.request(w, p);
        index_ready(words.as_slice(), &req, shared.candidates.as_slice())
    }

    /// Whether a call that [`AttnV41::forward`] accepted can be finished with
    /// these scores and window slots.
    pub fn finish_ready(
        &self,
        w: &AttnV41LayerWeights,
        st: &AttnV41LayerState,
        shared: &SharedV41,
        p: &AttnPending,
        score: &[u8],
        window_idx: &[i32],
        window_topk: usize,
    ) -> (r: bool)
        requires
            self.wf(),
            call_in_range(&self.cfg, p.m as int, p.start_pos as int),
            w.role.ratio > 0 ==> st.room_for(&self.cfg, w.role.ratio as int),
            has_room(w.wo_a, self.cfg.groups * self.cfg.o_rank * self.cfg.group_width() * 2),
            *p == self.pending_of(w, st, p.m, p.start_pos),
        ensures
            r == self.finish_in_range(w, st, shared, *p, score@, window_idx@, window_topk as int),
    {
        let slots: usize = window_idx.len();
        match p.m.checked_mul(window_topk) {
            Some(n) => {
                if n != slots {
                    return false;
                }
            },
            None => {
                return false;
            },
        }
        if p.m.checked_mul(shared.topk).is_none() || window_topk.checked_add(shared.topk).is_none()
            || window_topk.checked_add(self.cfg.index_topk).is_none() {
            return false;
        }
        match p.score_bytes {
            Some(n) => {
                let held: usize = score.len();
                if held != n {
                    return false;
                }
                proof {
                    lemma_score_fits(&self.cfg, p.m as int, p.start_pos as int, w.role.ratio as int);
                }
                let cells: usize = p.m * ((p.start_pos + p.m) / w.role.ratio);
                let marks: usize = shared.candidates.len();
                if !w.role.is_candidate_source && w.role.uses_candidates && marks != cells {
                    return true;
                }
                self.selection_ready(w, shared, p, score)
            },
            None => true,
        }
    }

    /// The selection of a layer that selects, from its scores; published for
    /// the layers below.
    fn select(&self, w: &AttnV41LayerWeights, shared: &mut SharedV41, p: &AttnPending, score: &[u8]) -> (r: Result<
        (Vec<i32>, usize),
        AttnError,
    >)
        requires
            self.cfg.fits(),
            call_in_range(&self.cfg, p.m as int, p.start_pos as int),
            Self::selects(w, p.m as int, p.start_pos as int),
            !Self::mask_is_stale(w, old(shared), *p) ==> {
                &&& self.request_of(w, *p).in_range(
                    words_of(score@).len() as int,
                    old(shared).candidates@.len() as int,
                )
                &&& self.request_of(w, *p).settles(words_of(score@), old(shared).candidates@)
            },
        ensures
            Self::mask_is_stale(w, old(shared), *p) ==> *final(shared) == *old(shared) && r == Err::<
                (Vec<i32>, usize),
                AttnError,
            >(
                AttnError::CandidateMask {
                    held: old(shared).candidates@.len() as usize,
                    m: p.m,
                    width: ((p.start_pos + p.m) / w.role.ratio as int) as usize,
                },
            ),
            !Self::mask_is_stale(w, old(shared), *p) ==> {
                let words: Seq<u32> = words_of(score@);
                let req: IndexRequest = self.request_of(w, *p);
                let mask: Seq<bool> = old(shared).candidates@;
                &&& r matches Ok(sel)
                &&& sel.0@ == req.index_table(words, mask)
                &&& sel.1 == req.topk()
                &&& final(shared).topk_idxs@ == sel.0@
                &&& final(shared).topk == sel.1
                &&& final(shared).compress_kv == old(shared).compress_kv
                &&& final(shared).compress_len == old(shared).compress_len
                &&& final(shared).index_k == old(shared).index_k
                &&& final(shared).candidates@ == if w.role.is_candidate_source {
                    req.published_candidates(words)
                } else {
                    mask
                }
                &&& final(shared).cand_width == if w.role.is_candidate_source {
                    req.width()
                } else {
                    old(shared).cand_width as int
                }
            },
    {
        let width: usize = (p.start_pos + p.m) / w.role.ratio;
        proof {
            lemma_score_fits(&self.cfg, p.m as int, p.start_pos as int, w.role.ratio as int);
        }
        let held: usize = shared.candidates.len();
        if !w.role.is_candidate_source && w.role.uses_candidates && held != p.m * width {
            return Err(AttnError::CandidateMask { held, m: p.m, width });
        }
        let words: Vec<u32> = f32_from_bytes(score);
        let req: IndexRequest = self.request(w, p);
        let sel: IndexSelection = index_selection_if_settled(
            words.as_slice(),
            &req,
            shared.candidates.as_slice(),
        ).unwrap();
        if let Some(mask) = sel.candidates {
            shared.candidates = mask;
            shared.cand_width = width;
        }
        shared.topk_idxs = copied(sel.idx.as_slice());
        shared.topk = sel.topk;
        Ok((sel.idx, sel.topk))
    }

    fn store_latents(
        &self,
        q: &mut CommandQueue,
        cache: DevicePtr,
        groups: usize,
        m: usize,
        start_pos: usize,
        ratio: usize,
    )
        requires
            self.wf(),
            ratio > 0,
            call_in_range(&self.cfg, m as int, start_pos as int),
            completes_group(m as int, start_pos as int, ratio as int),
            groups == completed_groups(m as int, start_pos as int, ratio as int),
            has_room(cache, (self.cfg.max_seq as int / ratio as int) * self.cfg.head_dim * 2),
        ensures
            final(q)@ == old(q)@ + self.latent_cmds(cache, groups as int, start_pos as int, ratio as int),
    {
        let hd: usize = self.cfg.head_dim;
        let ghost gi: int = groups as int;
        proof {
            lemma_call_fits(&self.cfg, m as int, start_pos as int);
            lemma_groups_in_range(&self.cfg, m as int, start_pos as int, ratio as int);
            lemma_mul_le(groups as int, m as int, hd as int);
            lemma_mul_le(0, groups as int, hd as int);
            let k: int = start_pos as int / ratio as int;
            let top: int = self.cfg.max_seq as int / ratio as int;
            lemma_mul_le(k, top, hd as int);
            lemma_mul_le(k, self.cfg.max_seq as int, hd as int);
            lemma_mul_le(0, k, hd as int);
            assert(k * (hd * 2) == k * hd * 2) by (nonlinear_arith);
            assert(gi * (hd * 2) == gi * hd * 2) by (nonlinear_arith);
        }
        let row: usize = hd * 2;
        let positions: Vec<i32> = Self::group_positions(groups, ratio, start_pos);
        upload_i32(q, self.buf.grp_pos, positions.as_slice());
        let ghost a: Seq<CommandView> = seq![
            CommandView::Upload { data: ints_bytes(positions@), dst: self.buf.grp_pos },
        ];
        assert(q@ =~= old(q)@ + a);
        self.rope(q, self.buf.latent, self.buf.grp_pos, groups, hd, true, false);
        let ghost b: Seq<CommandView> = a + self.rope_cmds(self.buf.latent, self.buf.grp_pos, gi, hd as int, true, false);
        assert(q@ =~= old(q)@ + b);
        self.fp4_quant(q, self.buf.latent, groups * hd, LATENT_BLOCK, true);
        let ghost c: Seq<CommandView> = b + self.fp4_quant_cmds(self.buf.latent, gi * hd, LATENT_BLOCK as int, true);
        assert(q@ =~= old(q)@ + c);
        q.push(Command::Synchronize);
        q.push(
            Command::CopyD2d { src: self.buf.latent, dst: at(cache, (start_pos / ratio) * row), bytes: groups * row },
        );
        assert(q@ =~= old(q)@ + self.latent_cmds(cache, gi, start_pos as int, ratio as int));
    }

    fn project_group(&self, q: &mut CommandQueue, w: &AttnV41LayerWeights, m: usize, g: usize)
        requires
            self.wf(),
            g < self.cfg.groups,
            has_room(w.wo_a, self.cfg.groups * self.cfg.o_rank * self.cfg.group_width() * 2),
        ensures
            final(q)@ == old(q)@ + self.group_cmds(w, m as int, g as int),
    {
        let c: &AttnV41Cfg = &self.cfg;
        let gw: usize = c.gw();
        proof {
            let gi: int = g as int;
            let n: int = c.groups as int;
            let heads: int = c.n_heads * c.head_dim;
            vstd::arithmetic::div_mod::lemma_fundamental_div_mod(heads, n);
            assert(n * (heads / n) == (heads / n) * n) by (nonlinear_arith);
            lemma_mul_le(gi, n, gw as int);
            lemma_mul_le(0, gi, gw as int);
            assert(n * gw == gw * n) by (nonlinear_arith);
            lemma_mul_le(0, c.n_heads as int, c.head_dim as int);
            vstd::arithmetic::div_mod::lemma_mod_pos_bound(heads, n);
            lemma_mul_le(gi, n, c.o_rank as int);
            lemma_mul_le(0, gi, c.o_rank as int);
            lemma_mul_le(gi * c.o_rank, n * c.o_rank, gw as int);
            lemma_mul_le(0, gi * c.o_rank, gw as int);
        }
        launch(
            q,
            Kernel::AttnSliceCols,
            m as u32,
            1,
            256,
            1,
            vec![
                Arg::Ptr(self.buf.o_rot),
                Arg::Ptr(self.buf.slice_in),
                Arg::U32((c.n_heads * c.head_dim) as u32),
                Arg::U32((g * gw) as u32),
                Arg::U32(gw as u32),
            ],
        );
        self.gemm(q, self.buf.slice_in, at(w.wo_a, g * c.o_rank * gw * 2), self.buf.slice_out, m, c.o_rank, gw);
        launch(
            q,
            Kernel::AttnScatterCols,
            m as u32,
            1,
            256,
            1,
            vec![
                Arg::Ptr(self.buf.slice_out),
                Arg::Ptr(self.buf.og),
                Arg::U32((c.groups * c.o_rank) as u32),
                Arg::U32((g * c.o_rank) as u32),
                Arg::U32(c.o_rank as u32),
            ],
        );
        assert(q@ =~= old(q)@ + self.group_cmds(w, m as int, g as int));
    }

    fn attend(
        &self,
        q: &mut CommandQueue,
        w: &AttnV41LayerWeights,
        p: &AttnPending,
        rows_b: Option<DevicePtr>,
        idx: &[i32],
        topk: usize,
    )
        requires
            self.wf(),
            call_in_range(&self.cfg, p.m as int, p.start_pos as int),
            has_room(w.wo_a, self.cfg.groups * self.cfg.o_rank * self.cfg.group_width() * 2),
        ensures
            final(q)@ == old(q)@ + self.attend_cmds(w, *p, rows_b, idx@, topk as int),
    {
        let c: &AttnV41Cfg = &self.cfg;
        let m: usize = p.m;
        let nh: usize = c.n_heads;
        let hd: usize = c.head_dim;
        proof {
            lemma_call_fits(&self.cfg, p.m as int, p.start_pos as int);
        }
        let ghost want: Seq<CommandView> = self.attend_cmds(w, *p, rows_b, idx@, topk as int);
        upload_i32(q, self.buf.idx_dev, idx);
        launch(
            q,
            Kernel::AttnSparseAttn,
            m as u32,
            nh as u32,
            256,
            1,
            vec![
                Arg::Ptr(self.buf.q),
                Arg::Ptr(p.rows_a),
                Arg::Ptr(
                    match rows_b {
                        Some(b) => b,
                        None => p.rows_a,
                    },
                ),
                Arg::U32(p.rows_a_len as u32),
                Arg::Ptr(self.buf.idx_dev),
                Arg::Ptr(w.sink),
                Arg::Ptr(self.buf.o),
                Arg::U32(nh as u32),
                Arg::U32(hd as u32),
                Arg::U32(topk as u32),
                Arg::F32(self.attn_scale),
            ],
        );
        q.push(Command::Synchronize);
        q.push(Command::CopyD2d { src: self.buf.o, dst: self.buf.o_rot, bytes: m * nh * hd * 2 });
        assert(q@ =~= old(q)@ + want.take(4));
        self.rope(q, self.buf.o_rot, self.buf.head_pos, m * nh, hd, w.role.ratio > 0, true);
        let ghost front: Seq<CommandView> = want.take(4) + self.rope_cmds(
            self.buf.o_rot,
            self.buf.head_pos,
            m * nh,
            hd as int,
            w.role.ratio > 0,
            true,
        );
        assert(q@ =~= old(q)@ + front);
        let ghost f = |g: int| self.group_cmds(w, m as int, g);
        for g in 0..c.groups
            invariant
                self.wf(),
                c == &self.cfg,
                has_room(w.wo_a, self.cfg.groups * self.cfg.o_rank * self.cfg.group_width() * 2),
                f == |g: int| self.group_cmds(w, m as int, g),
                q@ == old(q)@ + (front + concat_rows(g as nat, f)),
        {
            self.project_group(q, w, m, g);
            assert(q@ =~= old(q)@ + (front + (concat_rows(g as nat, f) + f(g as int))));
        }
        self.gemm(q, self.buf.og, w.wo_b, self.buf.out, m, c.dim, c.groups * c.o_rank);
        q.push(Command::Synchronize);
        assert(want.take(4) =~= seq![want[0], want[1], want[2], want[3]]);
        assert(q@ =~= old(q)@ + want);
    }

    /// The second half of one layer's attention: selects from the scores where
    /// the layer selects, stores a kv source's latents, and attends.
    ///
    /// `score` is what the device left in the score workspace,
    /// `pending.score_bytes` long; `window_idx` are the window slots
    /// `[tokens][window_topk]`.
    pub fn finish(
        &self,
        q: &mut CommandQueue,
        w: &AttnV41LayerWeights,
        st: &AttnV41LayerState,
        shared: &mut SharedV41,
        pending: AttnPending,
        score: &[u8],
        window_idx: Vec<i32>,
        window_topk: usize,
    ) -> (r: Result<AttnV41Run, AttnError>)
        requires
            self.finish_in_range(w, st, old(shared), pending, score@, window_idx@, window_topk as int),
        ensures
            match self.finish_error(w, st, old(shared), pending, words_of(score@), window_topk as int) {
                Some(e) => r == Err::<AttnV41Run, AttnError>(e),
                None => {
                    let attended: (Seq<i32>, int) = self.attended(w, old(shared), pending, words_of(score@));
                    &&& r matches Ok(run)
                    &&& run.q == self.buf.q
                    &&& run.rows_a == pending.rows_a
                    &&& run.rows_a_len == pending.rows_a_len
                    &&& run.rows_b == Self::compressed_rows(w, st, old(shared), pending)
                    &&& run.rows_b_len == if w.role.ratio == 0 {
                        0
                    } else {
                        (pending.start_pos + pending.m) / w.role.ratio as int
                    }
                    &&& run.idx@ == self.attended_idx(
                        w,
                        old(shared),
                        pending,
                        words_of(score@),
                        window_idx@,
                        window_topk as int,
                    )
                    &&& run.topk == window_topk + attended.1
                    &&& run.o == self.buf.o
                    &&& run.out == self.buf.out
                },
            },
            final(q)@ == old(q)@ + self.finish_cmds(
                w,
                st,
                old(shared),
                pending,
                words_of(score@),
                window_idx@,
                window_topk as int,
            ),
            self.finish_publishes(w, st, *old(shared), pending, words_of(score@), *final(shared)),
    {
        let c: &AttnV41Cfg = &self.cfg;
        let m: usize = pending.m;
        let start_pos: usize = pending.start_pos;
        let ratio: usize = w.role.ratio;
        let ghost words: Seq<u32> = words_of(score@);
        let ghost none: Seq<CommandView> = seq![];
        let ghost base: Seq<CommandView> = q@;
        let ghost s1: Seq<CommandView> = if pending.groups is Some && st.compress_kv is Some && !Self::mask_is_stale(
            w,
            old(shared),
            pending,
        ) {
            self.latent_cmds(st.compress_kv->0, pending.groups->0 as int, start_pos as int, ratio as int)
        } else {
            none
        };
        let ghost s2: Seq<CommandView> = if self.finish_error(
            w,
            st,
            old(shared),
            pending,
            words,
            window_topk as int,
        ) is None {
            self.attend_cmds(
                w,
                pending,
                Self::compressed_rows(w, st, old(shared), pending),
                self.attended_idx(w, old(shared), pending, words, window_idx@, window_topk as int),
                window_topk + self.attended(w, old(shared), pending, words).1,
            )
        } else {
            none
        };
        proof {
            assert(self.finish_cmds(w, st, old(shared), pending, words, window_idx@, window_topk as int) == s1 + s2);
            lemma_append_all(base, s1, s2, none, none);
            assert(base + none =~= base);
            assert(base + s1 + none =~= base + s1);
        }
        let mut idx: Vec<i32> = window_idx;
        let mut topk: usize = window_topk;
        let mut rows_b: Option<DevicePtr> = None;
        let mut rows_b_len: usize = 0;
        if ratio > 0 {
            let compress_len: usize = (start_pos + m) / ratio;
            let mut cidx: Vec<i32> = Vec::new();
            let mut ctopk: usize = 0;
            if !w.role.is_index_source {
                cidx = copied(shared.topk_idxs.as_slice());
                ctopk = shared.topk;
            } else if compress_len != 0 {
                match self.select(w, shared, &pending, score) {
                    Ok(sel) => {
                        cidx = sel.0;
                        ctopk = sel.1;
                    },
                    Err(e) => {
                        return Err(e);
                    },
                }
            }
            proof {
                let attended: (Seq<i32>, int) = self.attended(w, old(shared), pending, words);
                assert(cidx@ =~= attended.0);
                assert(ctopk == attended.1);
            }
            if let Some(groups) = pending.groups {
                let cache: DevicePtr = match st.compress_kv {
                    Some(cache) => cache,
                    None => {
                        return Err(AttnError::NoLatentCache);
                    },
                };
                proof {
                    lemma_groups_in_range(c, m as int, start_pos as int, ratio as int);
                }
                self.store_latents(q, cache, groups, m, start_pos, ratio);
                shared.compress_kv = Some(cache);
                shared.compress_len = start_pos / ratio + groups;
            }
            rows_b = match shared.compress_kv {
                Some(rows) => Some(rows),
                None => {
                    return Err(AttnError::NoCompressedRows);
                },
            };
            rows_b_len = compress_len;
            proof {
                let req: IndexRequest = self.request_of(w, pending);
                if Self::selects(w, m as int, start_pos as int) {
                    lemma_index_table_len(req, words_of(score@), old(shared).candidates@);
                }
            }
            let held: usize = cidx.len();
            if held != m * ctopk {
                return Err(AttnError::IndexSelection { held, m, topk: ctopk });
            }
            idx = merge_index(idx.as_slice(), topk, cidx.as_slice(), ctopk, m);
            topk = topk + ctopk;
        }
        if !(topk <= c.window + c.index_topk && topk <= MAX_TOPK) {
            return Err(AttnError::Topk { topk });
        }
        assert(q@ == base + s1);
        self.attend(q, w, &pending, rows_b, idx.as_slice(), topk);
        assert(q@ == base + s1 + s2);
        Ok(
            AttnV41Run {
                q: self.buf.q,
                rows_a: pending.rows_a,
                rows_a_len: pending.rows_a_len,
                rows_b,
                rows_b_len,
                idx,
                topk,
                o: self.buf.o,
                out: self.buf.out,
            },
        )
    }
}

/// The room that a table of `n` floats takes on the device.
pub open spec fn table_room(n: int) -> int {
    if n < 1 {
        4
    } else {
        4 * n
    }
}

/// The room that a table of `n` floats takes on the device.
pub fn f32_table_bytes(n: usize) -> (r: usize)
    requires
        n * 4 <= usize::MAX,
    ensures
        r == table_room(n as int),
{
    if n < 1 {
        4
    } else {
        4 * n
    }
}

/// Uploads floats, given by their bit patterns.
pub fn upload_f32(q: &mut CommandQueue, dst: DevicePtr, v: &[u32])
    ensures
        final(q)@ == old(q)@.push(CommandView::Upload { data: words_bytes(v@), dst }),
{
    q.push(Command::Upload { data: f32_bytes(v), dst });
}

impl AttnV41 {
    /// The kernels that the layers launch.
    pub fn kernels() -> (r: Vec<Kernel>)
        ensures
            r@ == seq![
                Kernel::DenseGemmBf16,
                Kernel::AttnRmsnormBf16,
                Kernel::AttnRmsnormF32,
                Kernel::AttnRope,
                Kernel::AttnActQuantFp8,
                Kernel::AttnFp4Quant,
                Kernel::AttnGemmF32,
                Kernel::AttnPool,
                Kernel::AttnIndexScore,
                Kernel::AttnSparseAttn,
                Kernel::AttnSliceCols,
                Kernel::AttnScatterCols,
                Kernel::AttnScaleBf16,
            ],
            forall|k: Kernel|
                r@.contains(k) <==> kernel_source_of(k).0 == KernelModule::Attn || k == Kernel::DenseGemmBf16,
    {
        let r: Vec<Kernel> = vec![
            Kernel::DenseGemmBf16,
            Kernel::AttnRmsnormBf16,
            Kernel::AttnRmsnormF32,
            Kernel::AttnRope,
            Kernel::AttnActQuantFp8,
            Kernel::AttnFp4Quant,
            Kernel::AttnGemmF32,
            Kernel::AttnPool,
            Kernel::AttnIndexScore,
            Kernel::AttnSparseAttn,
            Kernel::AttnSliceCols,
            Kernel::AttnScatterCols,
            Kernel::AttnScaleBf16,
        ];
        proof {
            assert forall|k: Kernel|
                r@.contains(k) <==> kernel_source_of(k).0 == KernelModule::Attn || k == Kernel::DenseGemmBf16 by {
                assert(r@[0] == Kernel::DenseGemmBf16);
                assert(r@[1] == Kernel::AttnRmsnormBf16);
                assert(r@[2] == Kernel::AttnRmsnormF32);
                assert(r@[3] == Kernel::AttnRope);
                assert(r@[4] == Kernel::AttnActQuantFp8);
                assert(r@[5] == Kernel::AttnFp4Quant);
                assert(r@[6] == Kernel::AttnGemmF32);
                assert(r@[7] == Kernel::AttnPool);
                assert(r@[8] == Kernel::AttnIndexScore);
                assert(r@[9] == Kernel::AttnSparseAttn);
                assert(r@[10] == Kernel::AttnSliceCols);
                assert(r@[11] == Kernel::AttnScatterCols);
                assert(r@[12] == Kernel::AttnScaleBf16);
            }
        }
        r
    }

    /// Whether the kernels can run a geometry, and the workspaces that it
    /// needs.
    pub fn plan(cfg: &AttnV41Cfg) -> (r: Result<AttnV41Layout, AttnError>)
        requires
            cfg.n_heads * cfg.head_dim <= usize::MAX,
            cfg.supported() ==> cfg.groups > 0 && cfg.fits(),
        ensures
            r is Ok <==> cfg.supported(),
            r matches Ok(l) ==> l == cfg.layout_of(),
            r matches Err(e) ==> e == cfg.refusal(),
    {
        assert(cfg.head_dim * cfg.n_heads == cfg.n_heads * cfg.head_dim) by (nonlinear_arith);
        match cfg.check() {
            Ok(_) => Ok(cfg.layout()),
            Err(e) => Err(e),
        }
    }

    /// Puts the runtime together from workspaces of the sizes of
    /// [`AttnV41::plan`], and uploads the RoPE tables, `[max_seq][rope_dim / 2]`
    /// of cosine and sine. The scales are bit patterns: `head_dim ^ -1/2`, and
    /// `index_hd ^ -1/2 * index_heads ^ -1/2`.
    pub fn new(
        q: &mut CommandQueue,
        cfg: AttnV41Cfg,
        buf: AttnV41Buffers,
        plain: &[u32],
        yarn: &[u32],
        attn_scale: u32,
        index_scale: u32,
    ) -> (r: Self)
        requires
            cfg.supported(),
            cfg.fits(),
            cfg.groups > 0,
            buf.roomy(cfg.layout_of()),
        ensures
            r.wf(),
            r == (AttnV41 { cfg, buf, attn_scale, index_scale }),
            final(q)@ == old(q)@ + seq![
                CommandView::Upload { data: words_bytes(plain@), dst: buf.fc_plain },
                CommandView::Upload { data: words_bytes(yarn@), dst: buf.fc_yarn },
            ],
    {
        upload_f32(q, buf.fc_plain, plain);
        upload_f32(q, buf.fc_yarn, yarn);
        assert(q@ =~= old(q)@ + seq![
            CommandView::Upload { data: words_bytes(plain@), dst: buf.fc_plain },
            CommandView::Upload { data: words_bytes(yarn@), dst: buf.fc_yarn },
        ]);
        AttnV41 { cfg, buf, attn_scale, index_scale }
    }

    /// Gives the tables and workspaces back, each once.
    pub fn free(self, q: &mut CommandQueue)
        ensures
            final(q)@ == old(q)@ + freed(self.buf.all()),
    {
        let b: AttnV41Buffers = self.buf;
        let all: Vec<DevicePtr> = vec![
            b.fc_plain,
            b.fc_yarn,
            b.qr_raw,
            b.qr,
            b.q,
            b.kv_raw,
            b.kv,
            b.o,
            b.o_rot,
            b.og,
            b.slice_in,
            b.slice_out,
            b.out,
            b.pos,
            b.head_pos,
            b.idx_pos,
            b.grp_pos,
            b.idx_dev,
            b.ckv,
            b.cscore,
            b.pooled,
            b.latent_raw,
            b.latent,
            b.ik_raw,
            b.ik,
            b.iq,
            b.iw_raw,
            b.iw,
            b.score,
        ];
        assert(all@ =~= b.all());
        free_each(q, &all);
    }
}

} // verus!
