//! Row-major tables held as one flat sequence.

use vstd::prelude::*;

verus! {

/// The rows `f(0)`, `f(1)`, .., `f(n - 1)` one after the other.
pub open spec fn concat_rows<T>(n: nat, f: spec_fn(int) -> Seq<T>) -> Seq<T>
    decreases n,
{
    if n == 0 {
        Seq::empty()
    } else {
        concat_rows((n - 1) as nat, f) + f(n - 1)
    }
}

/// Row `r` of a table whose rows are `w` long.
pub open spec fn row<T>(s: Seq<T>, r: int, w: int) -> Seq<T> {
    s.subrange(r * w, (r + 1) * w)
}

/// A table of `n` rows of `w` entries has `n * w` entries.
pub proof fn lemma_concat_rows_len<T>(n: nat, w: int, f: spec_fn(int) -> Seq<T>)
    requires
        forall|r: int| 0 <= r < n ==> (#[trigger] f(r)).len() == w,
    ensures
        concat_rows(n, f).len() == n * w,
    decreases n,
{
    if n > 0 {
        lemma_concat_rows_len((n - 1) as nat, w, f);
        assert((n - 1) * w + w == n * w) by (nonlinear_arith);
    } else {
        assert(0 * w == 0);
    }
}

/// Row `r` of a table is the row that it was made of.
pub proof fn lemma_concat_rows_row<T>(n: nat, w: int, f: spec_fn(int) -> Seq<T>, r: int)
    requires
        0 <= r < n,
        0 <= w,
        forall|i: int| 0 <= i < n ==> (#[trigger] f(i)).len() == w,
    ensures
        concat_rows(n, f).len() == n * w,
        0 <= r * w,
        (r + 1) * w <= n * w,
        row(concat_rows(n, f), r, w) == f(r),
    decreases n,
{
    lemma_concat_rows_len(n, w, f);
    lemma_concat_rows_len((n - 1) as nat, w, f);
    assert(0 <= r * w) by (nonlinear_arith)
        requires
            0 <= r,
            0 <= w,
    ;
    assert((r + 1) * w <= n * w) by (nonlinear_arith)
        requires
            r + 1 <= n,
            0 <= w,
    ;
    assert((r + 1) * w == r * w + w) by (nonlinear_arith);
    if r == n - 1 {
        assert(row(concat_rows(n, f), r, w) =~= f(r));
    } else {
        lemma_concat_rows_row((n - 1) as nat, w, f, r);
        assert(row(concat_rows(n, f), r, w) =~= row(concat_rows((n - 1) as nat, f), r, w));
    }
}

/// Two tables with the same rows are the same.
pub proof fn lemma_concat_rows_equal<T>(n: nat, f: spec_fn(int) -> Seq<T>, g: spec_fn(int) -> Seq<T>)
    requires
        forall|r: int| 0 <= r < n ==> #[trigger] f(r) == g(r),
    ensures
        concat_rows(n, f) == concat_rows(n, g),
    decreases n,
{
    if n > 0 {
        lemma_concat_rows_equal((n - 1) as nat, f, g);
        assert(f(n - 1) == g(n - 1));
    }
}

/// Row `r < n` of a table of `n` rows lies inside it.
pub proof fn lemma_row_bounds(r: int, n: int, w: int)
    requires
        0 <= r < n,
        0 <= w,
    ensures
        0 <= r * w,
        (r + 1) * w == r * w + w,
        (r + 1) * w <= n * w,
{
    assert(0 <= r * w) by (nonlinear_arith)
        requires
            0 <= r,
            0 <= w,
    ;
    assert((r + 1) * w <= n * w) by (nonlinear_arith)
        requires
            r + 1 <= n,
            0 <= w,
    ;
    assert((r + 1) * w == r * w + w) by (nonlinear_arith);
}

/// Tables with the same rows are the same.
pub proof fn lemma_same_rows<T>(a: Seq<T>, b: Seq<T>, n: int, w: int)
    requires
        0 <= n,
        0 <= w,
        a.len() == n * w,
        b.len() == n * w,
        forall|r: int| 0 <= r < n ==> #[trigger] row(a, r, w) == row(b, r, w),
    ensures
        a == b,
{
    assert forall|i: int| 0 <= i < a.len() implies a[i] == b[i] by {
        assert(0 < w) by (nonlinear_arith)
            requires
                0 <= i < n * w,
                0 <= w,
        ;
        let r: int = i / w;
        let k: int = i % w;
        vstd::arithmetic::div_mod::lemma_fundamental_div_mod(i, w);
        assert(w * r == r * w && 0 <= k < w && 0 <= r < n) by (nonlinear_arith)
            requires
                0 <= i < n * w,
                0 < w,
                i == w * r + k,
                r == i / w,
                k == i % w,
        ;
        lemma_row_bounds(r, n, w);
        assert(row(a, r, w)[k] == a[i]);
        assert(row(b, r, w)[k] == b[i]);
    }
    assert(a =~= b);
}

/// Products grow with their factors.
pub proof fn lemma_mul_le(a: int, b: int, c: int)
    requires
        a <= b,
        0 <= c,
    ensures
        a * c <= b * c,
        c * a <= c * b,
{
    assert(a * c <= b * c) by (nonlinear_arith)
        requires
            a <= b,
            0 <= c,
    ;
    assert(c * a <= c * b) by (nonlinear_arith)
        requires
            a <= b,
            0 <= c,
    ;
}

/// Whether a product of four is a machine integer.
pub fn product_fits(a: usize, b: usize, c: usize, d: usize) -> (r: bool)
    ensures
        r == (a * b * c * d <= usize::MAX),
{
    if a == 0 || b == 0 || c == 0 || d == 0 {
        assert(a * b * c * d == 0) by (nonlinear_arith)
            requires
                a == 0 || b == 0 || c == 0 || d == 0,
        ;
        return true;
    }
    assert(a * b <= a * b * c && a * b * c <= a * b * c * d) by (nonlinear_arith)
        requires
            a >= 1,
            b >= 1,
            c >= 1,
            d >= 1,
    ;
    match a.checked_mul(b) {
        Some(ab) => match ab.checked_mul(c) {
            Some(abc) => abc.checked_mul(d).is_some(),
            None => false,
        },
        None => false,
    }
}

/// Appending one after the other is appending all at once.
pub proof fn lemma_append_all<T>(base: Seq<T>, a: Seq<T>, b: Seq<T>, c: Seq<T>, d: Seq<T>)
    ensures
        base + a + b + c + d == base + (a + b + c + d),
        base + a + b + c == base + (a + b + c),
        base + a + b == base + (a + b),
{
    assert(base + a + b + c + d =~= base + (a + b + c + d));
    assert(base + a + b + c =~= base + (a + b + c));
    assert(base + a + b =~= base + (a + b));
}

/// Appends a copy of `s`.
pub fn append<T: Copy>(v: &mut Vec<T>, s: &[T])
    ensures
        final(v)@ == old(v)@ + s@,
{
    let n: usize = s.len();
    for i in 0..n
        invariant
            n == s@.len(),
            v@ == old(v)@ + s@.take(i as int),
    {
        v.push(s[i]);
        assert(s@.take(i + 1) =~= s@.take(i as int).push(s@[i as int]));
    }
    assert(s@.take(n as int) =~= s@);
}

/// A copy of `s`.
pub fn copied<T: Copy>(s: &[T]) -> (r: Vec<T>)
    ensures
        r@ == s@,
{
    let mut v: Vec<T> = Vec::with_capacity(s.len());
    append(&mut v, s);
    assert(v@ =~= s@);
    v
}

/// `n` copies of `x`.
pub fn filled<T: Copy>(x: T, n: usize) -> (r: Vec<T>)
    ensures
        r@ == Seq::new(n as nat, |i: int| x),
{
    let mut v: Vec<T> = Vec::with_capacity(n);
    for i in 0..n
        invariant
            v@ == Seq::new(i as nat, |j: int| x),
    {
        v.push(x);
        assert(v@ =~= Seq::new((i + 1) as nat, |j: int| x));
    }
    v
}

/// Writes `s` over `v`, from place `at` on.
pub fn overwrite<T: Copy>(v: &mut Vec<T>, at: usize, s: &[T])
    requires
        at + s@.len() <= old(v)@.len(),
    ensures
        final(v)@ == spliced(old(v)@, at as int, s@),
{
    let n: usize = s.len();
    let total: usize = v.len();
    for i in 0..n
        invariant
            n == s@.len(),
            total == old(v)@.len(),
            at + n <= total,
            v@ == spliced(old(v)@, at as int, s@.take(i as int)),
            v@.len() == old(v)@.len(),
    {
        v.set(at + i, s[i]);
        assert(v@ =~= spliced(old(v)@, at as int, s@.take(i + 1)));
    }
    assert(s@.take(n as int) =~= s@);
    assert(v@ =~= spliced(old(v)@, at as int, s@));
}

/// `v` with `s` written over it, from place `at` on.
pub open spec fn spliced<T>(v: Seq<T>, at: int, s: Seq<T>) -> Seq<T> {
    Seq::new(
        v.len(),
        |i: int|
            if at <= i < at + s.len() {
                s[i - at]
            } else {
                v[i]
            },
    )
}

/// The bytes of a table of rows, but at least 16.
pub open spec fn table_bytes(rows: int, width: int, bytes: int) -> int {
    if rows * width * bytes < 16 {
        16
    } else {
        rows * width * bytes
    }
}

/// A sequence with another written over a part of it: the part is the other's,
/// the rest stays.
pub proof fn lemma_spliced<T>(v: Seq<T>, at: int, s: Seq<T>, i: int)
    requires
        0 <= at,
        at + s.len() <= v.len(),
        0 <= i < v.len(),
    ensures
        spliced(v, at, s).len() == v.len(),
        at <= i < at + s.len() ==> spliced(v, at, s)[i] == s[i - at],
        i < at || at + s.len() <= i ==> spliced(v, at, s)[i] == v[i],
{
}

} // verus!
