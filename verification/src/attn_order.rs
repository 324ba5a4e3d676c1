//! The order of an attention layer's commands, and the rotation tables that
//! they name.

use crate::attn::AttnPending;
use crate::attn_cfg::{AttnV41, AttnV41LayerState, AttnV41LayerWeights, SharedV41};
use crate::attn_steps::{call_in_range, gemmed};
use crate::device::{Arg, CommandView, DevicePtr, Kernel};
use crate::rows::concat_rows;
use vstd::prelude::*;

verus! {

/// A command that runs on behind the host: all but the copies and the wait.
pub open spec fn is_work(c: CommandView) -> bool {
    !(c is CopyD2d || c is Upload || c is Memset || c is Synchronize)
}

/// Whatever was issued before, the device has nothing left to do behind these
/// commands: they hold a wait, and no work behind it.
pub open spec fn is_idle(cmds: Seq<CommandView>) -> bool
    decreases cmds.len(),
{
    if cmds.len() == 0 || is_work(cmds.last()) {
        false
    } else if cmds.last() is Synchronize {
        true
    } else {
        is_idle(cmds.drop_last())
    }
}

/// Every copy between device buffers waits for the work issued before it.
pub open spec fn copies_wait(cmds: Seq<CommandView>) -> bool {
    forall|i: int| 0 <= i < cmds.len() && #[trigger] cmds[i] is CopyD2d ==> is_idle(cmds.take(i))
}

/// Every rotation among the commands names this table.
pub open spec fn rotates_with(cmds: Seq<CommandView>, table: DevicePtr) -> bool {
    forall|i: int|
        0 <= i < cmds.len() ==> (#[trigger] cmds[i] matches CommandView::Launch { kernel, args, .. } ==> kernel
            == Kernel::AttnRope ==> args[2] == Arg::Ptr(table))
}

/// None of the commands copies between device buffers.
pub open spec fn copies_nothing(cmds: Seq<CommandView>) -> bool {
    forall|i: int| 0 <= i < cmds.len() ==> !(#[trigger] cmds[i] is CopyD2d)
}

/// None of the commands is work.
pub open spec fn works_nothing(cmds: Seq<CommandView>) -> bool {
    forall|i: int| 0 <= i < cmds.len() ==> !is_work(#[trigger] cmds[i])
}

proof fn lemma_idle_append(a: Seq<CommandView>, b: Seq<CommandView>)
    ensures
        is_idle(b) ==> is_idle(a + b),
        is_idle(a) && works_nothing(b) ==> is_idle(a + b),
    decreases b.len(),
{
    if b.len() == 0 {
        assert(a + b =~= a);
    } else {
        lemma_idle_append(a, b.drop_last());
        assert((a + b).drop_last() =~= a + b.drop_last());
        assert((a + b).last() == b.last());
        assert(b.last() == b[b.len() - 1]);
        assert(works_nothing(b) ==> works_nothing(b.drop_last()));
    }
}

proof fn lemma_copies_wait_append(a: Seq<CommandView>, b: Seq<CommandView>)
    requires
        copies_wait(a),
        copies_wait(b) || (is_idle(a) && works_nothing(b)),
    ensures
        copies_wait(a + b),
{
    assert forall|i: int| 0 <= i < (a + b).len() && #[trigger] (a + b)[i] is CopyD2d implies is_idle(
        (a + b).take(i),
    ) by {
        if i < a.len() {
            assert(a[i] is CopyD2d);
            assert((a + b).take(i) =~= a.take(i));
        } else {
            let k: int = i - a.len();
            assert(b[k] is CopyD2d);
            assert((a + b).take(i) =~= a + b.take(k));
            lemma_idle_append(a, b.take(k));
            if works_nothing(b) {
                assert(works_nothing(b.take(k)));
            }
        }
    }
}

proof fn lemma_rotates_append(a: Seq<CommandView>, b: Seq<CommandView>, table: DevicePtr)
    requires
        rotates_with(a, table),
        rotates_with(b, table),
    ensures
        rotates_with(a + b, table),
{
    assert forall|i: int| 0 <= i < (a + b).len() implies (#[trigger] (a + b)[i] matches CommandView::Launch {
        kernel,
        args,
        ..
    } ==> kernel == Kernel::AttnRope ==> args[2] == Arg::Ptr(table)) by {
        if i < a.len() {
            assert((a + b)[i] == a[i]);
        } else {
            assert((a + b)[i] == b[i - a.len()]);
        }
    }
}

/// Both laws of a sequence of commands.
spec fn is_orderly(cmds: Seq<CommandView>, table: DevicePtr) -> bool {
    copies_wait(cmds) && rotates_with(cmds, table)
}

proof fn lemma_orderly_append(a: Seq<CommandView>, b: Seq<CommandView>, table: DevicePtr)
    requires
        is_orderly(a, table),
        is_orderly(b, table),
    ensures
        is_orderly(a + b, table),
{
    lemma_copies_wait_append(a, b);
    lemma_rotates_append(a, b, table);
}

proof fn lemma_synced(a: Seq<CommandView>)
    requires
        a.len() > 0,
        a.last() is Synchronize,
    ensures
        is_idle(a),
{
}

impl AttnV41 {
    /// The rotation table of a layer: with YaRN on compressed layers, plain on
    /// the others.
    pub open spec fn rotation_table(&self, w: &AttnV41LayerWeights) -> DevicePtr {
        if w.role.ratio > 0 {
            self.buf.fc_yarn
        } else {
            self.buf.fc_plain
        }
    }

    proof fn lemma_project_order(&self, w: &AttnV41LayerWeights, x: DevicePtr, m: int, start_pos: int)
        ensures
            is_orderly(self.project_cmds(w, x, m, start_pos), self.rotation_table(w)),
            is_idle(self.project_cmds(w, x, m, start_pos)),
    {
        let cmds: Seq<CommandView> = self.project_cmds(w, x, m, start_pos);
        assert(cmds.last() is Synchronize);
        assert(copies_nothing(cmds));
        assert(copies_wait(cmds));
        lemma_synced(cmds);
    }

    proof fn lemma_compressor_order(
        &self,
        w: &AttnV41LayerWeights,
        st: &AttnV41LayerState,
        x: DevicePtr,
        m: int,
        start_pos: int,
        table: DevicePtr,
    )
        ensures
            is_orderly(self.compressor_cmds(w, st, x, m, start_pos), table),
    {
        let cmds: Seq<CommandView> = self.compressor_cmds(w, st, x, m, start_pos);
        let ratio: int = w.role.ratio as int;
        if ratio == 1 {
            assert(copies_nothing(cmds));
            assert(is_orderly(cmds, table));
        } else {
            let (kv_state, score_state) = st.comp_state->0;
            let a: Seq<CommandView> = seq![
                self.gemm_f32_cmd(x, (w.comp->0).kv, self.buf.ckv, m),
                self.gemm_f32_cmd(x, (w.comp->0).gate->0, self.buf.cscore, m),
            ];
            let b: Seq<CommandView> = self.partial_group_cmds(kv_state, score_state, m, start_pos, ratio);
            let c: Seq<CommandView> = self.pool_cmds((w.comp->0).norm, kv_state, score_state, m, start_pos, ratio);
            assert(cmds == a + b + c);
            assert(is_orderly(a, table));
            assert(copies_nothing(c));
            assert(is_orderly(c, table));
            if b.len() > 0 {
                let sync: Seq<CommandView> = seq![CommandView::Synchronize];
                let rest: Seq<CommandView> = seq![b[1], b[2]];
                assert(b =~= sync + rest);
                lemma_synced(sync);
                assert(works_nothing(rest));
                lemma_copies_wait_append(sync, rest);
            }
            assert(rotates_with(b, table));
            lemma_orderly_append(a, b, table);
            lemma_orderly_append(a + b, c, table);
        }
    }

    proof fn lemma_indexer_order(
        &self,
        w: &AttnV41LayerWeights,
        st: &AttnV41LayerState,
        shared: &SharedV41,
        x: DevicePtr,
        groups: Option<usize>,
        m: int,
        start_pos: int,
    )
        ensures
            is_orderly(self.indexer_cmds(w, st, shared, x, groups, m, start_pos), self.buf.fc_yarn),
            is_idle(self.indexer_cmds(w, st, shared, x, groups, m, start_pos)),
    {
        let cmds: Seq<CommandView> = self.indexer_cmds(w, st, shared, x, groups, m, start_pos);
        let ratio: int = w.role.ratio as int;
        let iw = w.idx->0;
        let table: DevicePtr = self.buf.fc_yarn;
        let b: Seq<CommandView> = self.index_score_cmds(
            iw,
            Self::index_keys(st, shared, groups)->0,
            x,
            m,
            start_pos,
            ratio,
        );
        assert(cmds.last() is Synchronize);
        lemma_synced(cmds);
        assert(copies_nothing(b));
        assert(is_orderly(b, table));
        if groups is Some && st.index_k is Some {
            let a: Seq<CommandView> = self.index_key_cmds(
                iw.wk->0,
                iw.k_norm->0,
                st.index_k->0,
                groups->0 as int,
                start_pos,
                ratio,
            );
            let head: Seq<CommandView> = a.drop_last();
            assert(copies_nothing(head));
            assert(rotates_with(a, table));
            assert(head.last() is Synchronize);
            lemma_synced(head);
            assert(a =~= head + seq![a.last()]);
            assert(works_nothing(seq![a.last()]));
            lemma_copies_wait_append(head, seq![a.last()]);
            lemma_orderly_append(a, b, table);
            assert(cmds == a + b);
        } else {
            assert(cmds =~= b);
        }
    }

    /// The first half of a layer copies nothing before the work that makes it
    /// is done, leaves the scores ready to be read back, and rotates with one
    /// table: queries, latent rows, index keys and index queries alike.
    pub proof fn lemma_forward_order(
        &self,
        w: &AttnV41LayerWeights,
        st: &AttnV41LayerState,
        shared: &SharedV41,
        x: DevicePtr,
        m: usize,
        start_pos: usize,
    )
        ensures
            copies_wait(self.forward_cmds(w, st, shared, x, m as int, start_pos as int)),
            rotates_with(
                self.forward_cmds(w, st, shared, x, m as int, start_pos as int),
                if w.role.ratio > 0 {
                    self.buf.fc_yarn
                } else {
                    self.buf.fc_plain
                },
            ),
            w.role.ratio > 0 && w.role.is_index_source && (start_pos + m) / w.role.ratio as int > 0 && call_in_range(
                &self.cfg,
                m as int,
                start_pos as int,
            ) && self.forward_error(w, st, shared, m, start_pos) is None ==> is_idle(
                self.forward_cmds(w, st, shared, x, m as int, start_pos as int),
            ),
    {
        let mi: int = m as int;
        let sp: int = start_pos as int;
        let table: DevicePtr = self.rotation_table(w);
        let none: Seq<CommandView> = seq![];
        let a: Seq<CommandView> = self.project_cmds(w, x, mi, sp);
        let b: Seq<CommandView> = self.window_cmds(st.window, mi, sp);
        let c: Seq<CommandView> = if self.compresses(w, st, mi, sp) {
            self.compressor_cmds(w, st, x, mi, sp)
        } else {
            none
        };
        let d: Seq<CommandView> = if Self::selects(w, mi, sp) && self.forward_error(w, st, shared, m, start_pos) is None {
            self.indexer_cmds(w, st, shared, x, Self::call_groups(w, mi, sp), mi, sp)
        } else {
            none
        };
        self.lemma_project_order(w, x, mi, sp);
        assert(works_nothing(b));
        assert(rotates_with(b, table));
        lemma_copies_wait_append(a, b);
        lemma_rotates_append(a, b, table);
        self.lemma_compressor_order(w, st, x, mi, sp, table);
        assert(is_orderly(none, table));
        lemma_orderly_append(a + b, c, table);
        self.lemma_indexer_order(w, st, shared, x, Self::call_groups(w, mi, sp), mi, sp);
        lemma_orderly_append(a + b + c, d, table);
        lemma_idle_append(a + b + c, d);
        if call_in_range(&self.cfg, mi, sp) {
            assert(self.forward_cmds(w, st, shared, x, mi, sp) == a + b + c + d);
        } else {
            assert(self.forward_cmds(w, st, shared, x, mi, sp) =~= none);
        }
    }

    proof fn lemma_groups_order(&self, w: &AttnV41LayerWeights, m: int, n: nat, table: DevicePtr)
        ensures
            is_orderly(concat_rows(n, |g: int| self.group_cmds(w, m, g)), table),
        decreases n,
    {
        let f = |g: int| self.group_cmds(w, m, g);
        if n == 0 {
            let none: Seq<CommandView> = seq![];
            assert(concat_rows(0, f) =~= none);
        } else {
            self.lemma_groups_order(w, m, (n - 1) as nat, table);
            let last: Seq<CommandView> = self.group_cmds(w, m, n - 1);
            assert(f(n - 1) == last);
            assert(copies_nothing(last));
            assert(is_orderly(last, table));
            lemma_orderly_append(concat_rows((n - 1) as nat, f), last, table);
        }
    }

    /// The second half of a layer copies nothing before the work that makes it
    /// is done, leaves its output ready, and rotates with the table that the
    /// first half rotates with.
    pub proof fn lemma_finish_order(
        &self,
        w: &AttnV41LayerWeights,
        st: &AttnV41LayerState,
        shared: &SharedV41,
        p: AttnPending,
        score: Seq<u32>,
        window_idx: Seq<i32>,
        window_topk: int,
    )
        requires
            p == self.pending_of(w, st, p.m, p.start_pos),
        ensures
            ({
                let cmds: Seq<CommandView> = self.finish_cmds(w, st, shared, p, score, window_idx, window_topk);
                &&& copies_wait(cmds)
                &&& rotates_with(
                    cmds,
                    if w.role.ratio > 0 {
                        self.buf.fc_yarn
                    } else {
                        self.buf.fc_plain
                    },
                )
                &&& self.finish_error(w, st, shared, p, score, window_topk) is None ==> is_idle(cmds)
            }),
    {
        let none: Seq<CommandView> = seq![];
        let table: DevicePtr = self.rotation_table(w);
        let m: int = p.m as int;
        let a: Seq<CommandView> = if p.groups is Some && st.compress_kv is Some && !Self::mask_is_stale(w, shared, p) {
            self.latent_cmds(st.compress_kv->0, p.groups->0 as int, p.start_pos as int, w.role.ratio as int)
        } else {
            none
        };
        if a.len() > 0 {
            let head: Seq<CommandView> = a.drop_last();
            assert(copies_nothing(head));
            assert(rotates_with(a, table));
            assert(head.last() is Synchronize);
            lemma_synced(head);
            assert(a =~= head + seq![a.last()]);
            assert(works_nothing(seq![a.last()]));
            lemma_copies_wait_append(head, seq![a.last()]);
        }
        assert(is_orderly(a, table));
        if self.finish_error(w, st, shared, p, score, window_topk) is None {
            let b: Seq<CommandView> = self.attend_cmds(
                w,
                p,
                Self::compressed_rows(w, st, shared, p),
                self.attended_idx(w, shared, p, score, window_idx, window_topk),
                window_topk + self.attended(w, shared, p, score).1,
            );
            let head: Seq<CommandView> = seq![b[0], b[1], b[2]];
            let copy: Seq<CommandView> = seq![b[3]];
            let r: Seq<CommandView> = self.rope_cmds(
                self.buf.o_rot,
                self.buf.head_pos,
                m * self.cfg.n_heads,
                self.cfg.head_dim as int,
                w.role.ratio > 0,
                true,
            );
            let g: Seq<CommandView> = concat_rows(self.cfg.groups as nat, |g: int| self.group_cmds(w, m, g));
            let last: Seq<CommandView> = seq![
                gemmed(self.buf.og, w.wo_b, self.buf.out, m, self.cfg.dim as int, self.cfg.groups * self.cfg.o_rank),
                CommandView::Synchronize,
            ];
            assert(b =~= head + copy + r + g + last);
            assert(copies_nothing(head));
            assert(is_orderly(head, table));
            lemma_synced(head);
            assert(works_nothing(copy));
            lemma_copies_wait_append(head, copy);
            lemma_rotates_append(head, copy, table);
            assert(is_orderly(r, table));
            lemma_orderly_append(head + copy, r, table);
            self.lemma_groups_order(w, m, self.cfg.groups as nat, table);
            lemma_orderly_append(head + copy + r, g, table);
            assert(copies_nothing(last));
            assert(is_orderly(last, table));
            lemma_orderly_append(head + copy + r + g, last, table);
            lemma_orderly_append(a, b, table);
            lemma_synced(a + b);
            assert(self.finish_cmds(w, st, shared, p, score, window_idx, window_topk) == a + b);
        } else {
            assert(self.finish_cmds(w, st, shared, p, score, window_idx, window_topk) =~= a);
        }
    }
}

} // verus!
