//! Tensor names.

use vstd::prelude::*;
use vstd::string::*;

verus! {

/// The decimal digit `d`.
pub open spec fn digit(d: int) -> char {
    (48 + d) as char
}

/// A number in decimal.
pub open spec fn decimal(n: int) -> Seq<char>
    decreases n,
{
    if n < 10 {
        seq![digit(n)]
    } else {
        decimal(n / 10).push(digit(n % 10))
    }
}

/// The name of a tensor of layer `l`: `model.layers.<l>.<tensor>`.
pub open spec fn layer_name_of(l: int, tensor: Seq<char>) -> Seq<char> {
    "model.layers."@ + decimal(l) + "."@ + tensor
}

fn digit_text(d: usize) -> (r: &'static str)
    requires
        d < 10,
    ensures
        r@ == seq![digit(d as int)],
{
    proof {
        reveal_strlit("0");
        reveal_strlit("1");
        reveal_strlit("2");
        reveal_strlit("3");
        reveal_strlit("4");
        reveal_strlit("5");
        reveal_strlit("6");
        reveal_strlit("7");
        reveal_strlit("8");
        reveal_strlit("9");
    }
    let r: &'static str = if d == 0 {
        "0"
    } else if d == 1 {
        "1"
    } else if d == 2 {
        "2"
    } else if d == 3 {
        "3"
    } else if d == 4 {
        "4"
    } else if d == 5 {
        "5"
    } else if d == 6 {
        "6"
    } else if d == 7 {
        "7"
    } else if d == 8 {
        "8"
    } else {
        "9"
    };
    assert(r@ =~= seq![digit(d as int)]);
    r
}

/// Appends a number in decimal.
pub fn push_decimal(s: &mut String, n: usize)
    ensures
        final(s)@ == old(s)@ + decimal(n as int),
    decreases n,
{
    if n >= 10 {
        push_decimal(s, n / 10);
    }
    s.append(digit_text(n % 10));
    assert(s@ =~= old(s)@ + decimal(n as int));
}

/// The name of a tensor of layer `l`.
pub fn layer_name(l: usize, tensor: &str) -> (r: String)
    ensures
        r@ == layer_name_of(l as int, tensor@),
{
    let mut s: String = "model.layers.".to_owned();
    push_decimal(&mut s, l);
    s.append(".");
    s.append(tensor);
    s
}

proof fn lemma_decimal_has_no_dot(n: int)
    requires
        0 <= n,
    ensures
        decimal(n).len() > 0,
        forall|i: int| 0 <= i < decimal(n).len() ==> (#[trigger] decimal(n)[i]) as int >= 48,
    decreases n,
{
    if n >= 10 {
        lemma_decimal_has_no_dot(n / 10);
    }
}

proof fn lemma_decimal_injective(a: int, b: int)
    requires
        0 <= a,
        0 <= b,
        decimal(a) == decimal(b),
    ensures
        a == b,
{
    lemma_decimal_says_the_number(a);
    lemma_decimal_says_the_number(b);
}

/// Names tell layers and tensors apart.
pub proof fn lemma_layer_names_distinct(l: int, tensor: Seq<char>, k: int, other: Seq<char>)
    requires
        0 <= l,
        0 <= k,
        layer_name_of(l, tensor) == layer_name_of(k, other),
    ensures
        l == k,
        tensor == other,
{
    reveal_strlit("model.layers.");
    reveal_strlit(".");
    let head: int = "model.layers."@.len() as int;
    let a: Seq<char> = decimal(l);
    let b: Seq<char> = decimal(k);
    let x: Seq<char> = layer_name_of(l, tensor);
    let y: Seq<char> = layer_name_of(k, other);
    lemma_decimal_has_no_dot(l);
    lemma_decimal_has_no_dot(k);
    assert(x[head + a.len()] == '.');
    assert(y[head + b.len()] == '.');
    if a.len() < b.len() {
        assert(y[head + a.len()] == b[a.len() as int]);
    } else if b.len() < a.len() {
        assert(x[head + b.len()] == a[b.len() as int]);
    }
    assert(a =~= b) by {
        assert forall|i: int| 0 <= i < a.len() implies a[i] == b[i] by {
            assert(x[head + i] == a[i]);
            assert(y[head + i] == b[i]);
        }
    }
    lemma_decimal_injective(l, k);
    let start: int = head + a.len() + 1;
    assert(tensor =~= other) by {
        assert(x.len() == start + tensor.len());
        assert(y.len() == start + other.len());
        assert forall|i: int| 0 <= i < tensor.len() implies tensor[i] == other[i] by {
            assert(x[start + i] == tensor[i]);
            assert(y[start + i] == other[i]);
        }
    }
}

/// The number that decimal digits say.
pub open spec fn decimal_value(s: Seq<char>) -> int
    decreases s.len(),
{
    if s.len() == 0 {
        0
    } else {
        10 * decimal_value(s.drop_last()) + (s.last() as int - 48)
    }
}

/// A number in decimal says the number, in digits, without a zero in front.
pub proof fn lemma_decimal_says_the_number(n: int)
    requires
        0 <= n,
    ensures
        decimal_value(decimal(n)) == n,
        forall|i: int| 0 <= i < decimal(n).len() ==> 48 <= (#[trigger] decimal(n)[i]) as int <= 57,
        n > 0 ==> decimal(n)[0] as int != 48,
    decreases n,
{
    let s: Seq<char> = decimal(n);
    reveal_with_fuel(decimal_value, 2);
    lemma_decimal_has_no_dot(n);
    if n >= 10 {
        lemma_decimal_says_the_number(n / 10);
        lemma_decimal_has_no_dot(n / 10);
        assert(s.drop_last() =~= decimal(n / 10));
        assert(s.last() as int == 48 + n % 10);
        assert(s[0] == decimal(n / 10)[0]);
    } else {
        assert(s.last() as int == 48 + n);
        assert(s.drop_last().len() == 0);
    }
}

} // verus!
