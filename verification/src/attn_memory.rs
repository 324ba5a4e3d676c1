//! What the attention layers' transfers do to device memory: the ring, the
//! partial group and the caches hold there what they hold in the host's model
//! of a layer.

use crate::attn_cfg::{
    at_least_1, lemma_state_fits, AttnV41, AttnV41Cfg, AttnV41LayerState, AttnV41LayerWeights, LayerRole,
};
use crate::attn_steps::{call_in_range, lemma_call_fits, lemma_groups_in_range, lemma_prefill_split};
use crate::bytes::{le32, words_bytes};
use crate::compress::{
    cache_holds, completed_groups, completes_group, latents_stored, lemma_decode_latents_stored, lemma_decode_tracks,
    lemma_prefill_latents_stored, lemma_prefill_tracks, rows_to_pool, state_after, state_tracks,
};
use crate::device::{has_room, offset_by, Arg, CommandView, DevicePtr, Kernel};
use crate::device_memory::{
    after_transfers, disjoint, is_transfer, lemma_after_transfers, lemma_copy_spares, lemma_copy_splices, lemma_table_of_rows,
    region, transferred,
};
use crate::rows::{
    lemma_concat_rows_equal, lemma_concat_rows_len, lemma_concat_rows_row, lemma_mul_le, lemma_row_bounds, row, spliced,
};
use crate::window::{
    lemma_decode_keeps_ring, lemma_newest_in_slot, lemma_prefill_fills_ring, lemma_recent_is_newest, newest_in_slot,
    ring_holds, slot_after, table_rows, window_after,
};
use vstd::arithmetic::div_mod::{lemma_fundamental_div_mod, lemma_fundamental_div_mod_converse};
use vstd::prelude::*;

verus! {

/// The launch that pools groups.
pub open spec fn is_pool(c: CommandView) -> bool {
    c matches CommandView::Launch { kernel, .. } && kernel == Kernel::AttnPool
}

proof fn lemma_prefill_slot(m: int, win: int, s: int)
    requires
        0 < win < m,
        0 <= s < win,
    ensures
        s >= m % win ==> newest_in_slot(s, m, win) == m - win + s - m % win,
        s < m % win ==> newest_in_slot(s, m, win) == m - m % win + s,
{
    let cutoff: int = m % win;
    let k: int = m / win;
    lemma_fundamental_div_mod(m, win);
    assert(win * k == k * win && (k - 1) * win == k * win - win) by (nonlinear_arith);
    if s >= cutoff {
        let p: int = m - win + s - cutoff;
        lemma_fundamental_div_mod_converse(p, win, k - 1, s);
        lemma_recent_is_newest(p, m, win);
    } else {
        let p: int = m - cutoff + s;
        lemma_fundamental_div_mod_converse(p, win, k, s);
        lemma_recent_is_newest(p, m, win);
    }
}

proof fn lemma_short_slot(m: int, win: int, s: int)
    requires
        0 < m <= win,
        0 <= s < win,
    ensures
        newest_in_slot(s, m, win) == if s < m {
            s
        } else {
            -1
        },
{
    if s < m {
        assert((m - 1 - s) / win == 0) by (nonlinear_arith)
            requires
                0 <= m - 1 - s < win,
        ;
        assert(0 * win == 0);
    }
}

proof fn lemma_ring_by_slots(after: Seq<u8>, window: Seq<u8>, kv: Seq<u8>, m: int, start_pos: int, win: int, w: int)
    requires
        0 <= w,
        0 < win,
        after.len() == win * w,
        forall|s: int| 0 <= s < win ==> #[trigger] row(after, s, w) == slot_after(window, kv, m, start_pos, win, w, s),
    ensures
        after == window_after(window, kv, m, start_pos, win, w),
{
    let f = |s: int| row(after, s, w);
    let g = |s: int| slot_after(window, kv, m, start_pos, win, w, s);
    assert forall|s: int| 0 <= s < win implies #[trigger] f(s) == g(s) by {
        assert(row(after, s, w) == slot_after(window, kv, m, start_pos, win, w, s));
    }
    lemma_concat_rows_equal(win as nat, f, g);
    lemma_table_of_rows(after, win as nat, w);
}

proof fn lemma_short_prefill(mem: spec_fn(int) -> u8, kv: DevicePtr, window: DevicePtr, m: int, win: int, w: int)
    requires
        0 < m <= win,
        0 <= w,
        has_room(window, win * w),
    ensures
        region(
            transferred(mem, CommandView::CopyD2d { src: kv, dst: window, bytes: m * w }),
            window,
            win * w,
        ) == window_after(region(mem, window, win * w), region(mem, kv, m * w), m, 0, win, w),
{
    let n: int = win * w;
    let before: Seq<u8> = region(mem, window, n);
    let rows: Seq<u8> = region(mem, kv, m * w);
    let after: Seq<u8> = spliced(before, 0, rows);
    lemma_mul_le(0, m, w);
    lemma_mul_le(m, win, w);
    lemma_copy_splices(mem, kv, window, 0, m * w, n);
    assert forall|s: int| 0 <= s < win implies #[trigger] row(after, s, w) == slot_after(before, rows, m, 0, win, w, s) by {
        lemma_short_slot(m, win, s);
        lemma_row_bounds(s, win, w);
        if s < m {
            lemma_row_bounds(s, m, w);
            assert(row(after, s, w) =~= row(rows, s, w));
        } else {
            lemma_mul_le(m, s, w);
            assert(row(after, s, w) =~= row(before, s, w));
        }
    }
    lemma_ring_by_slots(after, before, rows, m, 0, win, w);
}

proof fn lemma_long_prefill(mem: spec_fn(int) -> u8, kv: DevicePtr, window: DevicePtr, m: int, win: int, w: int)
    requires
        0 < win < m,
        0 <= w,
        has_room(window, win * w),
        has_room(kv, m * w),
        disjoint(kv, m * w, window, win * w),
    ensures
        ({
            let cutoff: int = m % win;
            let first: CommandView = CommandView::CopyD2d {
                src: offset_by(kv, (m - win) * w),
                dst: offset_by(window, cutoff * w),
                bytes: (win - cutoff) * w,
            };
            let second: CommandView = CommandView::CopyD2d {
                src: offset_by(kv, (m - win) * w + (win - cutoff) * w),
                dst: window,
                bytes: cutoff * w,
            };
            region(transferred(transferred(mem, first), second), window, win * w) == window_after(
                region(mem, window, win * w),
                region(mem, kv, m * w),
                m,
                0,
                win,
                w,
            )
        }),
{
    let n: int = win * w;
    let cutoff: int = m % win;
    let before: Seq<u8> = region(mem, window, n);
    let rows: Seq<u8> = region(mem, kv, m * w);
    lemma_mul_le(0, m, w);
    lemma_mul_le(0, cutoff, w);
    lemma_mul_le(cutoff, win, w);
    lemma_mul_le(0, win - cutoff, w);
    lemma_mul_le(0, m - win, w);
    assert((win - cutoff) * w == win * w - cutoff * w && (m - win) * w == m * w - win * w && (m - cutoff) * w == m * w
        - cutoff * w) by (nonlinear_arith);
    let src1: DevicePtr = offset_by(kv, (m - win) * w);
    let src2: DevicePtr = offset_by(kv, (m - win) * w + (win - cutoff) * w);
    let dst1: DevicePtr = offset_by(window, cutoff * w);
    let mid: spec_fn(int) -> u8 = transferred(
        mem,
        CommandView::CopyD2d { src: src1, dst: dst1, bytes: (win - cutoff) * w },
    );
    lemma_copy_splices(mem, src1, window, cutoff * w, (win - cutoff) * w, n);
    lemma_copy_splices(mid, src2, window, 0, cutoff * w, n);
    lemma_copy_spares(mem, src1, dst1, (win - cutoff) * w, src2, cutoff * w);
    let part1: Seq<u8> = region(mem, src1, (win - cutoff) * w);
    let part2: Seq<u8> = region(mem, src2, cutoff * w);
    let after: Seq<u8> = spliced(spliced(before, cutoff * w, part1), 0, part2);
    assert forall|s: int| 0 <= s < win implies #[trigger] row(after, s, w) == slot_after(before, rows, m, 0, win, w, s) by {
        lemma_prefill_slot(m, win, s);
        lemma_row_bounds(s, win, w);
        let p: int = newest_in_slot(s, m, win);
        lemma_newest_in_slot(s, m, win);
        lemma_row_bounds(p, m, w);
        if s >= cutoff {
            lemma_mul_le(cutoff, s, w);
            assert(p * w == (m - win) * w + s * w - cutoff * w) by (nonlinear_arith)
                requires
                    p == m - win + s - cutoff,
            ;
            assert(row(after, s, w) =~= row(rows, p, w));
        } else {
            lemma_row_bounds(s, cutoff, w);
            assert(p * w == (m - cutoff) * w + s * w) by (nonlinear_arith)
                requires
                    p == m - cutoff + s,
            ;
            assert(row(after, s, w) =~= row(rows, p, w));
        }
    }
    lemma_ring_by_slots(after, before, rows, m, 0, win, w);
}

proof fn lemma_decoded_row(mem: spec_fn(int) -> u8, kv: DevicePtr, window: DevicePtr, start_pos: int, win: int, w: int)
    requires
        0 < win,
        0 < start_pos,
        0 <= w,
        has_room(window, win * w),
    ensures
        region(
            transferred(
                mem,
                CommandView::CopyD2d { src: kv, dst: offset_by(window, (start_pos % win) * w), bytes: w },
            ),
            window,
            win * w,
        ) == window_after(region(mem, window, win * w), region(mem, kv, 1 * w), 1, start_pos, win, w),
{
    let n: int = win * w;
    let slot: int = start_pos % win;
    let before: Seq<u8> = region(mem, window, n);
    let rows: Seq<u8> = region(mem, kv, 1 * w);
    let after: Seq<u8> = spliced(before, slot * w, rows);
    lemma_row_bounds(slot, win, w);
    assert(1 * w == w);
    lemma_copy_splices(mem, kv, window, slot * w, w, n);
    assert forall|s: int| 0 <= s < win implies #[trigger] row(after, s, w) == slot_after(
        before,
        rows,
        1,
        start_pos,
        win,
        w,
        s,
    ) by {
        lemma_newest_in_slot(s, start_pos + 1, win);
        lemma_recent_is_newest(start_pos, start_pos + 1, win);
        lemma_row_bounds(s, win, w);
        if s == slot {
            assert(row(after, s, w) =~= row(rows, 0, w));
        } else {
            if s < slot {
                lemma_row_bounds(s, slot, w);
            } else {
                lemma_row_bounds(slot, s, w);
            }
            assert(row(after, s, w) =~= row(before, s, w));
        }
    }
    lemma_ring_by_slots(after, before, rows, 1, start_pos, win, w);
}

impl AttnV41 {
    /// After a prefill of any length, or the decode of one position, the ring
    /// on the device holds what the host's ring holds: row by row of
    /// [`window_after`].
    pub proof fn lemma_window_cmds_fill_ring(
        &self,
        mem: spec_fn(int) -> u8,
        window: DevicePtr,
        m: int,
        start_pos: int,
    )
        requires
            self.wf(),
            self.cfg.window > 0,
            call_in_range(&self.cfg, m, start_pos),
            start_pos == 0 || m == 1,
            has_room(window, self.cfg.window * (self.cfg.head_dim * 2)),
            disjoint(self.buf.kv, m * (self.cfg.head_dim * 2), window, self.cfg.window * (self.cfg.head_dim * 2)),
        ensures
            forall|i: int|
                0 <= i < self.window_cmds(window, m, start_pos).len() ==> is_transfer(
                    #[trigger] self.window_cmds(window, m, start_pos)[i],
                ),
            region(
                after_transfers(mem, self.window_cmds(window, m, start_pos)),
                window,
                self.cfg.window * (self.cfg.head_dim * 2),
            ) == window_after(
                region(mem, window, self.cfg.window * (self.cfg.head_dim * 2)),
                region(mem, self.buf.kv, m * (self.cfg.head_dim * 2)),
                m,
                start_pos,
                self.cfg.window as int,
                self.cfg.head_dim * 2,
            ),
    {
        let win: int = self.cfg.window as int;
        let w: int = self.cfg.head_dim * 2;
        let kv: DevicePtr = self.buf.kv;
        let cmds: Seq<CommandView> = self.window_cmds(window, m, start_pos);
        lemma_mul_le(m, self.cfg.max_tokens as int, w);
        lemma_call_fits(&self.cfg, m, start_pos);
        assert(self.cfg.max_tokens * w == self.cfg.max_tokens * self.cfg.head_dim * 2) by (nonlinear_arith)
            requires
                w == self.cfg.head_dim * 2,
        ;
        if start_pos == 0 && m <= win {
            lemma_after_transfers(mem, cmds[0], cmds[0], cmds[0]);
            assert(cmds =~= seq![cmds[0]]);
            lemma_short_prefill(mem, kv, window, m, win, w);
        } else if start_pos == 0 {
            lemma_after_transfers(mem, cmds[0], cmds[1], cmds[1]);
            assert(cmds =~= seq![cmds[0], cmds[1]]);
            lemma_long_prefill(mem, kv, window, m, win, w);
        } else {
            lemma_after_transfers(mem, cmds[0], cmds[0], cmds[0]);
            assert(cmds =~= seq![cmds[0]]);
            lemma_decoded_row(mem, kv, window, start_pos, win, w);
        }
    }

    /// After a call above ratio 1 the partial group on the device holds what
    /// the host's holds, [`state_after`]: for the rows and for their scores.
    pub proof fn lemma_partial_group_cmds_fill_state(
        &self,
        mem: spec_fn(int) -> u8,
        kv_state: DevicePtr,
        score_state: DevicePtr,
        m: int,
        start_pos: int,
        ratio: int,
    )
        requires
            self.wf(),
            1 < ratio,
            call_in_range(&self.cfg, m, start_pos),
            start_pos == 0 || m == 1,
            has_room(kv_state, ratio * (self.cfg.head_dim * 4)),
            has_room(score_state, ratio * (self.cfg.head_dim * 4)),
            disjoint(kv_state, ratio * (self.cfg.head_dim * 4), score_state, ratio * (self.cfg.head_dim * 4)),
            disjoint(kv_state, ratio * (self.cfg.head_dim * 4), self.buf.cscore, m * (self.cfg.head_dim * 4)),
        ensures
            forall|i: int|
                0 <= i < self.partial_group_cmds(kv_state, score_state, m, start_pos, ratio).len() ==> is_transfer(
                    #[trigger] self.partial_group_cmds(kv_state, score_state, m, start_pos, ratio)[i],
                ),
            ({
                let w: int = self.cfg.head_dim * 4;
                let after: spec_fn(int) -> u8 = after_transfers(
                    mem,
                    self.partial_group_cmds(kv_state, score_state, m, start_pos, ratio),
                );
                &&& region(after, kv_state, ratio * w) == state_after(
                    region(mem, kv_state, ratio * w),
                    region(mem, self.buf.ckv, m * w),
                    m,
                    start_pos,
                    ratio,
                    w,
                )
                &&& region(after, score_state, ratio * w) == state_after(
                    region(mem, score_state, ratio * w),
                    region(mem, self.buf.cscore, m * w),
                    m,
                    start_pos,
                    ratio,
                    w,
                )
            }),
    {
        let w: int = self.cfg.head_dim * 4;
        let n: int = ratio * w;
        let cmds: Seq<CommandView> = self.partial_group_cmds(kv_state, score_state, m, start_pos, ratio);
        let ckv: DevicePtr = self.buf.ckv;
        let cscore: DevicePtr = self.buf.cscore;
        let kv_before: Seq<u8> = region(mem, kv_state, n);
        let score_before: Seq<u8> = region(mem, score_state, n);
        let kv_rows: Seq<u8> = region(mem, ckv, m * w);
        let score_rows: Seq<u8> = region(mem, cscore, m * w);
        lemma_prefill_split(m, ratio);
        lemma_call_fits(&self.cfg, m, start_pos);
        lemma_mul_le(0, ratio, w);
        lemma_mul_le(0, m, w);
        lemma_mul_le(m, self.cfg.max_tokens as int, w);
        assert(self.cfg.max_tokens * w == self.cfg.max_tokens * self.cfg.head_dim * 4) by (nonlinear_arith)
            requires
                w == self.cfg.head_dim * 4,
        ;
        let rest: int = m % ratio;
        let cutoff: int = m - rest;
        lemma_mul_le(0, cutoff, w);
        lemma_mul_le(0, rest, w);
        lemma_mul_le(rest, ratio, w);
        assert(cutoff * w + rest * w == m * w) by (nonlinear_arith)
            requires
                cutoff == m - rest,
        ;
        if start_pos == 0 && rest == 0 {
            assert(cmds =~= Seq::<CommandView>::empty());
            assert(after_transfers(mem, cmds) == mem);
            assert(0 * w == 0);
            assert(kv_before =~= spliced(kv_before, 0, kv_rows.skip(cutoff * w)));
            assert(score_before =~= spliced(score_before, 0, score_rows.skip(cutoff * w)));
        } else {
            lemma_after_transfers(mem, cmds[0], cmds[1], cmds[2]);
            assert(cmds =~= seq![cmds[0], cmds[1], cmds[2]]);
            let mid: spec_fn(int) -> u8 = transferred(mem, cmds[1]);
            let (off, bytes, src1, src2) = if start_pos == 0 {
                (0int, rest * w, offset_by(ckv, cutoff * w), offset_by(cscore, cutoff * w))
            } else {
                ((start_pos % ratio) * w, w, ckv, cscore)
            };
            if start_pos != 0 {
                lemma_row_bounds(start_pos % ratio, ratio, w);
                assert(1 * w == w);
            }
            let dst1: DevicePtr = offset_by(kv_state, off);
            let dst2: DevicePtr = offset_by(score_state, off);
            assert(offset_by(kv_state, 0) == kv_state && offset_by(score_state, 0) == score_state);
            assert(cmds[1] == CommandView::CopyD2d { src: src1, dst: dst1, bytes });
            assert(cmds[2] == CommandView::CopyD2d { src: src2, dst: dst2, bytes });
            lemma_copy_splices(mem, src1, kv_state, off, bytes, n);
            lemma_copy_splices(mid, src2, score_state, off, bytes, n);
            lemma_copy_spares(mem, src1, dst1, bytes, score_state, n);
            lemma_copy_spares(mem, src1, dst1, bytes, src2, bytes);
            lemma_copy_spares(mid, src2, dst2, bytes, kv_state, n);
            if start_pos == 0 {
                assert(region(mem, src1, bytes) =~= kv_rows.skip(cutoff * w));
                assert(region(mem, src2, bytes) =~= score_rows.skip(cutoff * w));
            } else {
                assert(region(mem, src1, bytes) =~= kv_rows);
                assert(region(mem, src2, bytes) =~= score_rows);
            }
        }
    }

    /// Above ratio 1 the pool of a call that completes groups reads what the
    /// host's compressor pools, [`rows_to_pool`], for the rows and for their
    /// scores: on prefill the call's own complete groups, on decode the partial
    /// group with the call's row in it. Between the call's two products and the
    /// pool there are only transfers.
    pub proof fn lemma_pool_reads_the_groups(
        &self,
        mem: spec_fn(int) -> u8,
        w: &AttnV41LayerWeights,
        st: &AttnV41LayerState,
        x: DevicePtr,
        m: int,
        start_pos: int,
    )
        requires
            self.wf(),
            1 < w.role.ratio,
            call_in_range(&self.cfg, m, start_pos),
            start_pos == 0 || m == 1,
            completes_group(m, start_pos, w.role.ratio as int),
            st.comp_state matches Some((kv_state, score_state)) && {
                let n: int = w.role.ratio * (self.cfg.head_dim * 4);
                let rows: int = m * (self.cfg.head_dim * 4);
                &&& has_room(kv_state, n)
                &&& has_room(score_state, n)
                &&& disjoint(kv_state, n, score_state, n)
                &&& disjoint(kv_state, n, self.buf.ckv, rows)
                &&& disjoint(kv_state, n, self.buf.cscore, rows)
                &&& disjoint(score_state, n, self.buf.ckv, rows)
                &&& disjoint(score_state, n, self.buf.cscore, rows)
            },
        ensures
            ({
                let ratio: int = w.role.ratio as int;
                let row: int = self.cfg.head_dim * 4;
                let (kv_state, score_state) = st.comp_state->0;
                let cmds: Seq<CommandView> = self.compressor_cmds(w, st, x, m, start_pos);
                let groups: int = completed_groups(m, start_pos, ratio);
                &&& exists|j: int| 0 <= j < cmds.len() && #[trigger] is_pool(cmds[j])
                &&& forall|j: int|
                    0 <= j < cmds.len() && #[trigger] is_pool(cmds[j]) ==> {
                        &&& 2 <= j
                        &&& forall|i: int| 2 <= i < j ==> is_transfer(#[trigger] cmds[i])
                        &&& cmds[j] matches CommandView::Launch { grid, args, .. }
                        &&& grid.x == groups as u32
                        &&& args.len() == 5
                        &&& args[0] matches Arg::Ptr(kv)
                        &&& args[1] matches Arg::Ptr(scores)
                        &&& args[2] == Arg::Ptr(self.buf.pooled)
                        &&& args[3] == Arg::U32(ratio as u32)
                        &&& args[4] == Arg::U32(self.cfg.head_dim as u32)
                        &&& region(
                            after_transfers(mem, cmds.subrange(2, j)),
                            kv,
                            groups * ratio * row,
                        ) == rows_to_pool(
                            region(mem, kv_state, ratio * row),
                            region(mem, self.buf.ckv, m * row),
                            m,
                            start_pos,
                            ratio,
                            row,
                        )
                        &&& region(
                            after_transfers(mem, cmds.subrange(2, j)),
                            scores,
                            groups * ratio * row,
                        ) == rows_to_pool(
                            region(mem, score_state, ratio * row),
                            region(mem, self.buf.cscore, m * row),
                            m,
                            start_pos,
                            ratio,
                            row,
                        )
                    }
            }),
    {
        let ratio: int = w.role.ratio as int;
        let row: int = self.cfg.head_dim * 4;
        let n: int = ratio * row;
        let (kv_state, score_state) = st.comp_state->0;
        let ckv: DevicePtr = self.buf.ckv;
        let cscore: DevicePtr = self.buf.cscore;
        let cmds: Seq<CommandView> = self.compressor_cmds(w, st, x, m, start_pos);
        let groups: int = completed_groups(m, start_pos, ratio);
        let a: Seq<CommandView> = seq![
            self.gemm_f32_cmd(x, (w.comp->0).kv, ckv, m),
            self.gemm_f32_cmd(x, (w.comp->0).gate->0, cscore, m),
        ];
        let b: Seq<CommandView> = self.partial_group_cmds(kv_state, score_state, m, start_pos, ratio);
        let c: Seq<CommandView> = self.pool_cmds((w.comp->0).norm, kv_state, score_state, m, start_pos, ratio);
        let at: int = 2 + b.len() as int;
        assert(cmds == a + b + c);
        assert(cmds[at] == c[0]);
        assert(is_pool(cmds[at]));
        self.lemma_partial_group_cmds_fill_state(mem, kv_state, score_state, m, start_pos, ratio);
        assert forall|j: int| 0 <= j < cmds.len() && #[trigger] is_pool(cmds[j]) implies j == at by {
            if j < 2 {
                assert(cmds[j] == a[j]);
            } else if j < at {
                assert(cmds[j] == b[j - 2]);
                assert(is_transfer(b[j - 2]));
            } else if j > at {
                assert(cmds[j] == c[j - at]);
            }
        }
        assert forall|i: int| 2 <= i < at implies is_transfer(#[trigger] cmds[i]) by {
            assert(cmds[i] == b[i - 2]);
        }
        assert(cmds.subrange(2, at) =~= b);
        let after: spec_fn(int) -> u8 = after_transfers(mem, b);
        lemma_prefill_split(m, ratio);
        lemma_mul_le(0, m, row);
        lemma_mul_le(0, ratio, row);
        if start_pos == 0 {
            let rest: int = m % ratio;
            let whole: int = (m - rest) * row;
            assert(groups * ratio == m - rest) by {
                lemma_fundamental_div_mod(m, ratio);
                assert(groups * ratio == ratio * groups) by (nonlinear_arith);
            }
            lemma_mul_le(0, m - rest, row);
            lemma_mul_le(m - rest, m, row);
            lemma_mul_le(rest, ratio, row);
            lemma_mul_le(0, rest, row);
            if rest == 0 {
                assert(b =~= Seq::<CommandView>::empty());
                assert(after == mem);
            } else {
                lemma_after_transfers(mem, b[0], b[1], b[2]);
                assert(b =~= seq![b[0], b[1], b[2]]);
                let mid: spec_fn(int) -> u8 = transferred(mem, b[1]);
                let src1: DevicePtr = offset_by(ckv, whole);
                let src2: DevicePtr = offset_by(cscore, whole);
                lemma_copy_spares(mem, src1, kv_state, rest * row, ckv, whole);
                lemma_copy_spares(mem, src1, kv_state, rest * row, cscore, whole);
                lemma_copy_spares(mid, src2, score_state, rest * row, ckv, whole);
                lemma_copy_spares(mid, src2, score_state, rest * row, cscore, whole);
            }
            assert(region(after, ckv, whole) == region(mem, ckv, whole));
            assert(region(after, cscore, whole) == region(mem, cscore, whole));
            assert(region(mem, ckv, whole) =~= region(mem, ckv, m * row).take(whole));
            assert(region(mem, cscore, whole) =~= region(mem, cscore, m * row).take(whole));
        } else {
            assert(groups == 1);
            assert(1 * ratio == ratio);
        }
    }

    /// The last command of [`AttnV41::latent_cmds`] puts a call's latents into
    /// the cache where the host's cache has them, [`latents_stored`].
    pub proof fn lemma_latents_go_behind_earlier(
        &self,
        mem: spec_fn(int) -> u8,
        cache: DevicePtr,
        m: int,
        start_pos: int,
        ratio: int,
    )
        requires
            self.wf(),
            0 < ratio,
            call_in_range(&self.cfg, m, start_pos),
            completes_group(m, start_pos, ratio),
            has_room(cache, (self.cfg.max_seq as int / ratio) * (self.cfg.head_dim * 2)),
        ensures
            ({
                let w: int = self.cfg.head_dim * 2;
                let n: int = (self.cfg.max_seq as int / ratio) * w;
                let groups: int = completed_groups(m, start_pos, ratio);
                region(transferred(mem, self.latent_cmds(cache, groups, start_pos, ratio).last()), cache, n)
                    == latents_stored(
                    region(mem, cache, n),
                    Some(region(mem, self.buf.latent, groups * w)),
                    start_pos,
                    ratio,
                    w,
                )
            }),
    {
        let w: int = self.cfg.head_dim * 2;
        let held: int = self.cfg.max_seq as int / ratio;
        let groups: int = completed_groups(m, start_pos, ratio);
        let first: int = start_pos / ratio;
        lemma_groups_in_range(&self.cfg, m, start_pos, ratio);
        lemma_mul_le(first + groups, held, w);
        lemma_mul_le(0, first, w);
        lemma_mul_le(0, groups, w);
        assert((first + groups) * w == first * w + groups * w) by (nonlinear_arith);
        lemma_copy_splices(mem, self.buf.latent, cache, first * w, groups * w, held * w);
        let cmds: Seq<CommandView> = self.latent_cmds(cache, groups, start_pos, ratio);
        assert(cmds.last() == CommandView::CopyD2d {
            src: self.buf.latent,
            dst: offset_by(cache, first * w),
            bytes: groups * w,
        });
    }
}

/// The range of `bytes` bytes from `p` on lies inside a buffer of `n` bytes.
pub open spec fn inside(p: DevicePtr, bytes: int, buffer: DevicePtr, n: int) -> bool {
    &&& buffer.0 <= p.0
    &&& 0 <= bytes
    &&& p.0 + bytes <= buffer.0 + n
}

/// A copy reads from inside one buffer and writes inside another.
pub open spec fn copies_between(c: CommandView, from: DevicePtr, from_bytes: int, to: DevicePtr, to_bytes: int) -> bool {
    c matches CommandView::CopyD2d { src, dst, bytes } ==> inside(src, bytes, from, from_bytes) && inside(
        dst,
        bytes,
        to,
        to_bytes,
    )
}

impl AttnV41 {
    /// Writing the ring stays inside the ring, and reads only rows of the call.
    pub proof fn lemma_window_copies_stay_inside(&self, window: DevicePtr, m: int, start_pos: int, i: int)
        requires
            self.wf(),
            self.cfg.window > 0,
            call_in_range(&self.cfg, m, start_pos),
            has_room(window, self.cfg.window * (self.cfg.head_dim * 2)),
            0 <= i < self.window_cmds(window, m, start_pos).len(),
        ensures
            copies_between(
                self.window_cmds(window, m, start_pos)[i],
                self.buf.kv,
                m * (self.cfg.head_dim * 2),
                window,
                self.cfg.window * (self.cfg.head_dim * 2),
            ),
    {
        let win: int = self.cfg.window as int;
        let w: int = self.cfg.head_dim * 2;
        lemma_mul_le(m, self.cfg.max_tokens as int, w);
        lemma_mul_le(0, m, w);
        lemma_call_fits(&self.cfg, m, start_pos);
        assert(self.cfg.max_tokens * w == self.cfg.max_tokens * self.cfg.head_dim * 2) by (nonlinear_arith)
            requires
                w == self.cfg.head_dim * 2,
        ;
        if start_pos == 0 && m <= win {
            lemma_mul_le(m, win, w);
        } else if start_pos == 0 {
            let cutoff: int = m % win;
            lemma_mul_le(0, cutoff, w);
            lemma_mul_le(0, win - cutoff, w);
            lemma_mul_le(0, m - win, w);
            assert((win - cutoff) * w == win * w - cutoff * w && (m - win) * w == m * w - win * w) by (nonlinear_arith);
        } else {
            lemma_row_bounds(start_pos % win, win, w);
            lemma_mul_le(1, m, w);
        }
    }

    /// Filling the partial group stays inside it, and reads only rows of the
    /// call.
    pub proof fn lemma_partial_group_copies_stay_inside(
        &self,
        kv_state: DevicePtr,
        score_state: DevicePtr,
        m: int,
        start_pos: int,
        ratio: int,
    )
        requires
            self.wf(),
            0 < ratio,
            call_in_range(&self.cfg, m, start_pos),
            has_room(kv_state, ratio * (self.cfg.head_dim * 4)),
            has_room(score_state, ratio * (self.cfg.head_dim * 4)),
            self.partial_group_cmds(kv_state, score_state, m, start_pos, ratio).len() > 0,
        ensures
            ({
                let w: int = self.cfg.head_dim * 4;
                let cmds: Seq<CommandView> = self.partial_group_cmds(kv_state, score_state, m, start_pos, ratio);
                &&& cmds.len() == 3
                &&& copies_between(cmds[1], self.buf.ckv, m * w, kv_state, ratio * w)
                &&& copies_between(cmds[2], self.buf.cscore, m * w, score_state, ratio * w)
            }),
    {
        let w: int = self.cfg.head_dim * 4;
        let rest: int = m % ratio;
        lemma_prefill_split(m, ratio);
        lemma_call_fits(&self.cfg, m, start_pos);
        lemma_mul_le(m, self.cfg.max_tokens as int, w);
        lemma_mul_le(0, m, w);
        assert(self.cfg.max_tokens * w == self.cfg.max_tokens * self.cfg.head_dim * 4) by (nonlinear_arith)
            requires
                w == self.cfg.head_dim * 4,
        ;
        if start_pos == 0 {
            lemma_mul_le(0, m - rest, w);
            lemma_mul_le(0, rest, w);
            lemma_mul_le(rest, ratio, w);
            assert((m - rest) * w + rest * w == m * w) by (nonlinear_arith);
        } else {
            lemma_row_bounds(start_pos % ratio, ratio, w);
            lemma_mul_le(1, m, w);
        }
    }

    /// Storing latents stays inside the cache, and reads only the latents of
    /// the call.
    pub proof fn lemma_latent_copy_stays_inside(&self, cache: DevicePtr, m: int, start_pos: int, ratio: int)
        requires
            self.wf(),
            0 < ratio,
            call_in_range(&self.cfg, m, start_pos),
            completes_group(m, start_pos, ratio),
            has_room(cache, (self.cfg.max_seq as int / ratio) * (self.cfg.head_dim * 2)),
        ensures
            copies_between(
                self.latent_cmds(cache, completed_groups(m, start_pos, ratio), start_pos, ratio).last(),
                self.buf.latent,
                m * (self.cfg.head_dim * 2),
                cache,
                (self.cfg.max_seq as int / ratio) * (self.cfg.head_dim * 2),
            ),
    {
        let w: int = self.cfg.head_dim * 2;
        let held: int = self.cfg.max_seq as int / ratio;
        let groups: int = completed_groups(m, start_pos, ratio);
        let first: int = start_pos / ratio;
        lemma_groups_in_range(&self.cfg, m, start_pos, ratio);
        lemma_mul_le(first + groups, held, w);
        lemma_mul_le(0, first, w);
        lemma_mul_le(0, groups, w);
        lemma_mul_le(groups, m, w);
        assert((first + groups) * w == first * w + groups * w) by (nonlinear_arith);
    }
}

impl AttnV41 {
    /// After a prefill the ring on the device holds the newest row of every
    /// slot.
    pub proof fn lemma_device_ring_after_prefill(&self, mem: spec_fn(int) -> u8, window: DevicePtr, m: int)
        requires
            self.wf(),
            self.cfg.window > 0,
            call_in_range(&self.cfg, m, 0),
            has_room(window, self.cfg.window * (self.cfg.head_dim * 2)),
            disjoint(self.buf.kv, m * (self.cfg.head_dim * 2), window, self.cfg.window * (self.cfg.head_dim * 2)),
        ensures
            ({
                let win: int = self.cfg.window as int;
                let w: int = self.cfg.head_dim * 2;
                let after: spec_fn(int) -> u8 = after_transfers(mem, self.window_cmds(window, m, 0));
                ring_holds(
                    region(after, window, win * w),
                    table_rows(region(mem, self.buf.kv, m * w), m, w),
                    win,
                    w,
                )
            }),
    {
        let win: int = self.cfg.window as int;
        let w: int = self.cfg.head_dim * 2;
        lemma_mul_le(0, win, w);
        lemma_mul_le(0, m, w);
        self.lemma_window_cmds_fill_ring(mem, window, m, 0);
        lemma_prefill_fills_ring(region(mem, window, win * w), region(mem, self.buf.kv, m * w), m, win, w);
    }

    /// A decoded position keeps the ring on the device: it then holds the
    /// newest row of every slot, the new one among them.
    pub proof fn lemma_device_ring_after_decode(
        &self,
        mem: spec_fn(int) -> u8,
        window: DevicePtr,
        rows: Seq<Seq<u8>>,
    )
        requires
            self.wf(),
            self.cfg.window > 0,
            rows.len() > 0,
            call_in_range(&self.cfg, 1, rows.len() as int),
            has_room(window, self.cfg.window * (self.cfg.head_dim * 2)),
            disjoint(self.buf.kv, self.cfg.head_dim * 2, window, self.cfg.window * (self.cfg.head_dim * 2)),
            ring_holds(
                region(mem, window, self.cfg.window * (self.cfg.head_dim * 2)),
                rows,
                self.cfg.window as int,
                self.cfg.head_dim * 2,
            ),
        ensures
            ({
                let win: int = self.cfg.window as int;
                let w: int = self.cfg.head_dim * 2;
                let after: spec_fn(int) -> u8 = after_transfers(
                    mem,
                    self.window_cmds(window, 1, rows.len() as int),
                );
                ring_holds(region(after, window, win * w), rows.push(region(mem, self.buf.kv, w)), win, w)
            }),
    {
        let win: int = self.cfg.window as int;
        let w: int = self.cfg.head_dim * 2;
        assert(1 * w == w);
        lemma_mul_le(0, win, w);
        self.lemma_window_cmds_fill_ring(mem, window, 1, rows.len() as int);
        lemma_decode_keeps_ring(region(mem, window, win * w), region(mem, self.buf.kv, w), rows, win, w);
    }

    /// After a prefill the latent cache on the device holds the latents of all
    /// complete groups, in order.
    pub proof fn lemma_device_cache_after_prefill(&self, mem: spec_fn(int) -> u8, cache: DevicePtr, m: int, ratio: int)
        requires
            self.wf(),
            0 < ratio,
            call_in_range(&self.cfg, m, 0),
            completes_group(m, 0, ratio),
            has_room(cache, (self.cfg.max_seq as int / ratio) * (self.cfg.head_dim * 2)),
        ensures
            ({
                let w: int = self.cfg.head_dim * 2;
                let n: int = (self.cfg.max_seq as int / ratio) * w;
                let groups: int = m / ratio;
                &&& completed_groups(m, 0, ratio) == groups
                &&& cache_holds(
                    region(transferred(mem, self.latent_cmds(cache, groups, 0, ratio).last()), cache, n),
                    table_rows(region(mem, self.buf.latent, groups * w), groups, w),
                    w,
                )
            }),
    {
        let w: int = self.cfg.head_dim * 2;
        let held: int = self.cfg.max_seq as int / ratio;
        let n: int = held * w;
        let groups: int = completed_groups(m, 0, ratio);
        lemma_groups_in_range(&self.cfg, m, 0, ratio);
        assert(0int / ratio == 0) by (nonlinear_arith)
            requires
                0 < ratio,
        ;
        lemma_mul_le(groups, held, w);
        lemma_mul_le(0, groups, w);
        lemma_mul_le(0, held, w);
        self.lemma_latents_go_behind_earlier(mem, cache, m, 0, ratio);
        lemma_prefill_latents_stored(region(mem, cache, n), region(mem, self.buf.latent, groups * w), m, ratio, w);
    }

    /// A decode that completes a group adds its latent to the cache on the
    /// device, behind the earlier ones.
    pub proof fn lemma_device_cache_after_decode(
        &self,
        mem: spec_fn(int) -> u8,
        cache: DevicePtr,
        latents: Seq<Seq<u8>>,
        start_pos: int,
        ratio: int,
    )
        requires
            self.wf(),
            0 < ratio,
            0 < start_pos,
            call_in_range(&self.cfg, 1, start_pos),
            completes_group(1, start_pos, ratio),
            has_room(cache, (self.cfg.max_seq as int / ratio) * (self.cfg.head_dim * 2)),
            latents.len() == start_pos / ratio,
            cache_holds(
                region(mem, cache, (self.cfg.max_seq as int / ratio) * (self.cfg.head_dim * 2)),
                latents,
                self.cfg.head_dim * 2,
            ),
        ensures
            ({
                let w: int = self.cfg.head_dim * 2;
                let n: int = (self.cfg.max_seq as int / ratio) * w;
                cache_holds(
                    region(transferred(mem, self.latent_cmds(cache, 1, start_pos, ratio).last()), cache, n),
                    latents.push(region(mem, self.buf.latent, w)),
                    w,
                )
            }),
    {
        let w: int = self.cfg.head_dim * 2;
        let held: int = self.cfg.max_seq as int / ratio;
        let n: int = held * w;
        lemma_groups_in_range(&self.cfg, 1, start_pos, ratio);
        assert(1 * w == w);
        assert(completed_groups(1, start_pos, ratio) == 1);
        lemma_mul_le(latents.len() as int + 1, held, w);
        lemma_mul_le(0, held, w);
        self.lemma_latents_go_behind_earlier(mem, cache, 1, start_pos, ratio);
        lemma_decode_latents_stored(
            region(mem, cache, n),
            latents,
            region(mem, self.buf.latent, w),
            start_pos,
            ratio,
            w,
        );
    }

    /// After a prefill the partial group on the device, values and scores,
    /// holds the rows since the last complete group.
    pub proof fn lemma_device_group_after_prefill(
        &self,
        mem: spec_fn(int) -> u8,
        kv_state: DevicePtr,
        score_state: DevicePtr,
        m: int,
        ratio: int,
    )
        requires
            self.wf(),
            1 < ratio,
            call_in_range(&self.cfg, m, 0),
            has_room(kv_state, ratio * (self.cfg.head_dim * 4)),
            has_room(score_state, ratio * (self.cfg.head_dim * 4)),
            disjoint(kv_state, ratio * (self.cfg.head_dim * 4), score_state, ratio * (self.cfg.head_dim * 4)),
            disjoint(kv_state, ratio * (self.cfg.head_dim * 4), self.buf.cscore, m * (self.cfg.head_dim * 4)),
        ensures
            ({
                let w: int = self.cfg.head_dim * 4;
                let after: spec_fn(int) -> u8 = after_transfers(
                    mem,
                    self.partial_group_cmds(kv_state, score_state, m, 0, ratio),
                );
                &&& state_tracks(
                    region(after, kv_state, ratio * w),
                    table_rows(region(mem, self.buf.ckv, m * w), m, w),
                    ratio,
                    w,
                )
                &&& state_tracks(
                    region(after, score_state, ratio * w),
                    table_rows(region(mem, self.buf.cscore, m * w), m, w),
                    ratio,
                    w,
                )
            }),
    {
        let w: int = self.cfg.head_dim * 4;
        lemma_mul_le(0, ratio, w);
        lemma_mul_le(0, m, w);
        self.lemma_partial_group_cmds_fill_state(mem, kv_state, score_state, m, 0, ratio);
        lemma_prefill_tracks(region(mem, kv_state, ratio * w), region(mem, self.buf.ckv, m * w), m, ratio, w);
        lemma_prefill_tracks(region(mem, score_state, ratio * w), region(mem, self.buf.cscore, m * w), m, ratio, w);
    }

    /// A decoded position keeps the partial group on the device, and where it
    /// completes the group, the last `ratio` rows stand there in order.
    pub proof fn lemma_device_group_after_decode(
        &self,
        mem: spec_fn(int) -> u8,
        kv_state: DevicePtr,
        score_state: DevicePtr,
        kv_rows: Seq<Seq<u8>>,
        score_rows: Seq<Seq<u8>>,
        ratio: int,
    )
        requires
            self.wf(),
            1 < ratio,
            0 < kv_rows.len() == score_rows.len(),
            call_in_range(&self.cfg, 1, kv_rows.len() as int),
            has_room(kv_state, ratio * (self.cfg.head_dim * 4)),
            has_room(score_state, ratio * (self.cfg.head_dim * 4)),
            disjoint(kv_state, ratio * (self.cfg.head_dim * 4), score_state, ratio * (self.cfg.head_dim * 4)),
            disjoint(kv_state, ratio * (self.cfg.head_dim * 4), self.buf.cscore, self.cfg.head_dim * 4),
            state_tracks(
                region(mem, kv_state, ratio * (self.cfg.head_dim * 4)),
                kv_rows,
                ratio,
                self.cfg.head_dim * 4,
            ),
            state_tracks(
                region(mem, score_state, ratio * (self.cfg.head_dim * 4)),
                score_rows,
                ratio,
                self.cfg.head_dim * 4,
            ),
        ensures
            ({
                let w: int = self.cfg.head_dim * 4;
                let end: int = kv_rows.len() as int;
                let after: spec_fn(int) -> u8 = after_transfers(
                    mem,
                    self.partial_group_cmds(kv_state, score_state, 1, end, ratio),
                );
                let kv_after: Seq<u8> = region(after, kv_state, ratio * w);
                let score_after: Seq<u8> = region(after, score_state, ratio * w);
                let more_kv: Seq<Seq<u8>> = kv_rows.push(region(mem, self.buf.ckv, w));
                let more_scores: Seq<Seq<u8>> = score_rows.push(region(mem, self.buf.cscore, w));
                &&& state_tracks(kv_after, more_kv, ratio, w)
                &&& state_tracks(score_after, more_scores, ratio, w)
                &&& completes_group(1, end, ratio) ==> forall|r: int|
                    0 <= r < ratio ==> #[trigger] row(kv_after, r, w) == more_kv[end + 1 - ratio + r]
                &&& completes_group(1, end, ratio) ==> forall|r: int|
                    0 <= r < ratio ==> #[trigger] row(score_after, r, w) == more_scores[end + 1 - ratio + r]
            }),
    {
        let w: int = self.cfg.head_dim * 4;
        let end: int = kv_rows.len() as int;
        assert(1 * w == w);
        lemma_mul_le(0, ratio, w);
        self.lemma_partial_group_cmds_fill_state(mem, kv_state, score_state, 1, end, ratio);
        let after: spec_fn(int) -> u8 = after_transfers(
            mem,
            self.partial_group_cmds(kv_state, score_state, 1, end, ratio),
        );
        let kv_before: Seq<u8> = region(mem, kv_state, ratio * w);
        let score_before: Seq<u8> = region(mem, score_state, ratio * w);
        let kv: Seq<u8> = region(mem, self.buf.ckv, w);
        let score: Seq<u8> = region(mem, self.buf.cscore, w);
        lemma_decode_tracks(kv_before, kv, kv_rows, ratio, w);
        lemma_decode_tracks(score_before, score, score_rows, ratio, w);
        assert(region(after, kv_state, ratio * w) == rows_to_pool(kv_before, kv, 1, end, ratio, w));
        assert(region(after, score_state, ratio * w) == rows_to_pool(score_before, score, 1, end, ratio, w));
    }
}

impl AttnV41LayerState {
    /// A fresh state is that of an empty sequence: ring, partial group, latent
    /// cache and index keys are zero over all their bytes, and every score of
    /// the partial group is negative infinity.
    pub proof fn lemma_fresh_state(&self, mem: spec_fn(int) -> u8, c: &AttnV41Cfg, role: LayerRole, a: int)
        requires
            role.is_kv_source,
            self.comp_state is Some,
            self.compress_kv is Some,
            self.index_k is Some,
            c.fits(),
            at_least_1(role.ratio as int) * c.head_dim * 4 <= usize::MAX,
            ({
                let ring: int = c.window * c.head_dim * 2;
                let ratio: int = at_least_1(role.ratio as int);
                let group: int = ratio * c.head_dim * 4;
                let rows: int = at_least_1(c.max_seq as int / ratio) * c.head_dim * 2;
                let keys: int = at_least_1(c.max_seq as int / ratio) * c.index_hd * 2;
                let (kv, score) = self.comp_state->0;
                let latents: DevicePtr = self.compress_kv->0;
                let index_k: DevicePtr = self.index_k->0;
                &&& has_room(score, group)
                &&& disjoint(self.window, ring, kv, group)
                &&& disjoint(self.window, ring, score, group)
                &&& disjoint(self.window, ring, latents, rows)
                &&& disjoint(self.window, ring, index_k, keys)
                &&& disjoint(kv, group, score, group)
                &&& disjoint(kv, group, latents, rows)
                &&& disjoint(kv, group, index_k, keys)
                &&& disjoint(score, group, latents, rows)
                &&& disjoint(score, group, index_k, keys)
                &&& disjoint(latents, rows, index_k, keys)
            }),
        ensures
            ({
                let after: spec_fn(int) -> u8 = after_transfers(mem, self.init_cmds(c, role));
                let ratio: int = at_least_1(role.ratio as int);
                let held: int = at_least_1(c.max_seq as int / ratio);
                let (kv, score) = self.comp_state->0;
                &&& 0 <= a < c.window * c.head_dim * 2 ==> after(self.window.0 + a) == 0
                &&& 0 <= a < ratio * c.head_dim * 4 ==> after(kv.0 + a) == 0
                &&& 0 <= a < held * c.head_dim * 2 ==> after((self.compress_kv->0).0 + a) == 0
                &&& 0 <= a < held * c.index_hd * 2 ==> after((self.index_k->0).0 + a) == 0
                &&& 0 <= a < ratio * c.head_dim ==> region(after, offset_by(score, 4 * a), 4) == le32(0xff80_0000u32)
            }),
    {
        let cmds: Seq<CommandView> = self.init_cmds(c, role);
        let ratio: int = at_least_1(role.ratio as int);
        let n: int = ratio * c.head_dim;
        let (kv, score) = self.comp_state->0;
        let words: Seq<u32> = Seq::new(n as nat, |i: int| 0xff80_0000u32);
        let f = |i: int| le32(words[i]);
        lemma_state_fits(c, role);
        lemma_mul_le(0, ratio, c.head_dim as int);
        assert forall|i: int| 0 <= i < n implies (#[trigger] f(i)).len() == 4 by {}
        lemma_concat_rows_len(n as nat, 4, f);
        let data: Seq<u8> = words_bytes(words);
        let m1: spec_fn(int) -> u8 = transferred(mem, cmds[0]);
        let m2: spec_fn(int) -> u8 = transferred(m1, cmds[1]);
        let m3: spec_fn(int) -> u8 = transferred(m2, cmds[2]);
        let m4: spec_fn(int) -> u8 = transferred(m3, cmds[3]);
        let m5: spec_fn(int) -> u8 = transferred(m4, cmds[4]);
        lemma_after_transfers(mem, cmds[0], cmds[1], cmds[2]);
        let c3: Seq<CommandView> = seq![cmds[0], cmds[1], cmds[2]];
        let c4: Seq<CommandView> = c3.push(cmds[3]);
        assert(c4.drop_last() =~= c3);
        assert(cmds.drop_last() =~= c4);
        assert(after_transfers(mem, c4) == m4);
        assert(after_transfers(mem, cmds) == m5);
        assert(cmds[2] == CommandView::Upload { data, dst: score });
        if 0 <= a < n {
            lemma_concat_rows_row(n as nat, 4, f, a);
            assert(row(data, a, 4) == le32(0xff80_0000u32));
            assert(region(m5, offset_by(score, 4 * a), 4) =~= row(data, a, 4));
        }
    }
}

} // verus!
