//! What transfers do to device memory.

use crate::device::{CommandView, DevicePtr};
use crate::rows::{concat_rows, lemma_row_bounds, row, spliced};
use vstd::prelude::*;

verus! {

/// The `n` bytes of memory from `p` on.
pub open spec fn region(mem: spec_fn(int) -> u8, p: DevicePtr, n: int) -> Seq<u8> {
    Seq::new(n as nat, |i: int| mem(p.0 + i))
}

/// Two ranges of memory have no byte in common.
pub open spec fn disjoint(p: DevicePtr, n: int, q: DevicePtr, k: int) -> bool {
    p.0 + n <= q.0 || q.0 + k <= p.0
}

/// A command that only moves bytes, or waits.
pub open spec fn is_transfer(c: CommandView) -> bool {
    c is CopyD2d || c is Upload || c is UploadAsync || c is Memset || c is MemsetAsync || c is Synchronize
}

/// Memory after a transfer.
pub open spec fn transferred(mem: spec_fn(int) -> u8, c: CommandView) -> spec_fn(int) -> u8 {
    match c {
        CommandView::CopyD2d { src, dst, bytes } => |a: int|
            if dst.0 <= a < dst.0 + bytes {
                mem(src.0 + (a - dst.0))
            } else {
                mem(a)
            },
        CommandView::Upload { data, dst } => |a: int|
            if dst.0 <= a < dst.0 + data.len() {
                data[a - dst.0]
            } else {
                mem(a)
            },
        CommandView::UploadAsync { data, dst } => |a: int|
            if dst.0 <= a < dst.0 + data.len() {
                data[a - dst.0]
            } else {
                mem(a)
            },
        CommandView::Memset { dst, value, bytes } => |a: int|
            if dst.0 <= a < dst.0 + bytes {
                value
            } else {
                mem(a)
            },
        CommandView::MemsetAsync { dst, value, bytes } => |a: int|
            if dst.0 <= a < dst.0 + bytes {
                value
            } else {
                mem(a)
            },
        _ => mem,
    }
}

/// Memory after transfers, one after the other.
pub open spec fn after_transfers(mem: spec_fn(int) -> u8, cmds: Seq<CommandView>) -> spec_fn(int) -> u8
    decreases cmds.len(),
{
    if cmds.len() == 0 {
        mem
    } else {
        transferred(after_transfers(mem, cmds.drop_last()), cmds.last())
    }
}

/// Transfers one, two and three at a time.
pub proof fn lemma_after_transfers(mem: spec_fn(int) -> u8, a: CommandView, b: CommandView, c: CommandView)
    ensures
        after_transfers(mem, seq![]) == mem,
        after_transfers(mem, seq![a]) == transferred(mem, a),
        after_transfers(mem, seq![a, b]) == transferred(transferred(mem, a), b),
        after_transfers(mem, seq![a, b, c]) == transferred(transferred(transferred(mem, a), b), c),
{
    let none: Seq<CommandView> = seq![];
    assert(seq![a].drop_last() =~= none);
    assert(seq![a, b].drop_last() =~= seq![a]);
    assert(seq![a, b, c].drop_last() =~= seq![a, b]);
    assert(after_transfers(mem, none) == mem);
    assert(after_transfers(mem, seq![a]) == transferred(mem, a));
    assert(after_transfers(mem, seq![a, b]) == transferred(transferred(mem, a), b));
}

/// A copy into a buffer writes the copied bytes over that part of it.
pub proof fn lemma_copy_splices(mem: spec_fn(int) -> u8, src: DevicePtr, base: DevicePtr, off: int, bytes: int, n: int)
    requires
        0 <= off,
        0 <= bytes,
        off + bytes <= n,
        base.0 + off <= u64::MAX,
    ensures
        region(
            transferred(mem, CommandView::CopyD2d { src, dst: DevicePtr((base.0 + off) as u64), bytes }),
            base,
            n,
        ) == spliced(region(mem, base, n), off, region(mem, src, bytes)),
{
    assert(region(
        transferred(mem, CommandView::CopyD2d { src, dst: DevicePtr((base.0 + off) as u64), bytes }),
        base,
        n,
    ) =~= spliced(region(mem, base, n), off, region(mem, src, bytes)));
}

/// A copy leaves a range alone that its destination has no byte in.
pub proof fn lemma_copy_spares(mem: spec_fn(int) -> u8, src: DevicePtr, dst: DevicePtr, bytes: int, p: DevicePtr, n: int)
    requires
        0 <= n,
        disjoint(dst, bytes, p, n),
    ensures
        region(transferred(mem, CommandView::CopyD2d { src, dst, bytes }), p, n) == region(mem, p, n),
{
    assert(region(transferred(mem, CommandView::CopyD2d { src, dst, bytes }), p, n) =~= region(mem, p, n));
}

/// A table is its rows, one after the other.
pub proof fn lemma_table_of_rows<T>(s: Seq<T>, n: nat, w: int)
    requires
        0 <= w,
        s.len() == n * w,
    ensures
        concat_rows(n, |r: int| row(s, r, w)) == s,
    decreases n,
{
    let f = |r: int| row(s, r, w);
    if n == 0 {
        assert(0 * w == 0);
        assert(concat_rows(n, f) =~= s);
    } else {
        lemma_row_bounds(n - 1, n as int, w);
        let t: Seq<T> = s.take((n - 1) * w);
        lemma_table_of_rows(t, (n - 1) as nat, w);
        let g = |r: int| row(t, r, w);
        assert forall|r: int| 0 <= r < n - 1 implies #[trigger] f(r) == g(r) by {
            lemma_row_bounds(r, n - 1, w);
            assert(f(r) =~= g(r));
        }
        crate::rows::lemma_concat_rows_equal((n - 1) as nat, f, g);
        assert(concat_rows(n, f) =~= s);
    }
}

} // verus!
