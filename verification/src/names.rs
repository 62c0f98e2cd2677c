//! The names under which the bits of a variable are registered.

use vstd::prelude::*;

verus! {

/// The character of a decimal digit.
pub open spec fn digit(d: nat) -> char {
    if d == 0 {
        '0'
    } else if d == 1 {
        '1'
    } else if d == 2 {
        '2'
    } else if d == 3 {
        '3'
    } else if d == 4 {
        '4'
    } else if d == 5 {
        '5'
    } else if d == 6 {
        '6'
    } else if d == 7 {
        '7'
    } else if d == 8 {
        '8'
    } else {
        '9'
    }
}

/// The decimal numeral of a number, without leading zeros.
pub open spec fn decimal(n: nat) -> Seq<char>
    decreases n,
{
    if n < 10 {
        seq![digit(n)]
    } else {
        decimal(n / 10).push(digit(n % 10))
    }
}

/// The name of bit `index` of the variable `name`: the name, `_v`, and the
/// number of the bit, counted from one.
pub open spec fn bit_name(name: Seq<char>, index: nat) -> Seq<char> {
    name + seq!['_', 'v'] + decimal(index + 1)
}

/// The name of the primed twin of a variable: the name and a tick.
pub open spec fn primed(name: Seq<char>) -> Seq<char> {
    name.push('\'')
}

/// `format!` with a name and a number: the name, `_v`, and the number in
/// decimal, as `Display` writes it.
#[verifier::external_body]
pub(crate) fn make_bit_name(name: &str, index: usize) -> (r: String)
    ensures
        r@ == name@ + seq!['_', 'v'] + decimal(index as nat),
{
    format!("{}_v{}", name, index)
}

/// `format!` with a name: the name followed by a tick.
#[verifier::external_body]
pub(crate) fn make_primed_name(name: &str) -> (r: String)
    ensures
        r@ == primed(name@),
{
    format!("{}'", name)
}

/// `str::eq`: whether two strings hold the same characters.
#[verifier::external_body]
pub(crate) fn same_name(a: &str, b: &str) -> (r: bool)
    ensures
        r <==> a@ == b@,
{
    a == b
}

/// Whether a character is a decimal digit.
pub open spec fn is_digit(c: char) -> bool {
    c == '0' || c == '1' || c == '2' || c == '3' || c == '4' || c == '5' || c == '6' || c == '7'
        || c == '8' || c == '9'
}

/// A numeral is not empty and holds digits only.
pub proof fn lemma_decimal_digits(n: nat)
    ensures
        decimal(n).len() >= 1,
        forall|i: int| 0 <= i < decimal(n).len() ==> is_digit(#[trigger] decimal(n)[i]),
    decreases n,
{
    if n >= 10 {
        lemma_decimal_digits(n / 10);
    }
}

/// Different numbers have different numerals.
pub proof fn lemma_decimal_injective(a: nat, b: nat)
    requires
        decimal(a) == decimal(b),
    ensures
        a == b,
    decreases a,
{
    lemma_decimal_digits(a / 10);
    lemma_decimal_digits(b / 10);
    if a < 10 && b < 10 {
        assert(decimal(a)[0] == digit(a));
        assert(decimal(b)[0] == digit(b));
    } else if a >= 10 && b >= 10 {
        assert(decimal(a).drop_last() =~= decimal(a / 10));
        assert(decimal(b).drop_last() =~= decimal(b / 10));
        assert(decimal(a).last() == digit(a % 10));
        assert(decimal(b).last() == digit(b % 10));
        lemma_decimal_injective(a / 10, b / 10);
    } else {
        assert(decimal(a).len() != decimal(b).len());
    }
}

/// A bit name tells both the variable and the bit.
pub proof fn lemma_bit_name_injective(first: Seq<char>, i: nat, second: Seq<char>, j: nat)
    requires
        bit_name(first, i) == bit_name(second, j),
    ensures
        first == second,
        i == j,
{
    let x = bit_name(first, i);
    let y = bit_name(second, j);
    let d = decimal(i + 1);
    let e = decimal(j + 1);
    lemma_decimal_digits(i + 1);
    lemma_decimal_digits(j + 1);
    assert(x.len() == first.len() + 2 + d.len());
    assert(y.len() == second.len() + 2 + e.len());
    if d.len() < e.len() {
        let k = x.len() - d.len() - 1;
        assert(x[k] == 'v');
        assert(y[k] == e[k - second.len() - 2]);
        assert(is_digit(y[k]));
        assert(false);
    }
    if e.len() < d.len() {
        let k = y.len() - e.len() - 1;
        assert(y[k] == 'v');
        assert(x[k] == d[k - first.len() - 2]);
        assert(is_digit(x[k]));
        assert(false);
    }
    assert(first.len() == second.len());
    assert(first =~= second) by {
        assert forall|k: int| 0 <= k < first.len() implies first[k] == second[k] by {
            assert(x[k] == first[k]);
            assert(y[k] == second[k]);
        }
    }
    assert(d =~= e) by {
        assert forall|k: int| 0 <= k < d.len() implies d[k] == e[k] by {
            assert(x[first.len() + 2 + k] == d[k]);
            assert(y[second.len() + 2 + k] == e[k]);
        }
    }
    lemma_decimal_injective(i + 1, j + 1);
}

/// A bit name holds the characters of the variable's name, an underscore,
/// the letter `v` and digits.
pub proof fn lemma_bit_name_chars(name: Seq<char>, i: nat, k: int)
    requires
        0 <= k < bit_name(name, i).len(),
    ensures
        (k < name.len() && bit_name(name, i)[k] == name[k]) || bit_name(name, i)[k] == '_'
            || bit_name(name, i)[k] == 'v' || is_digit(bit_name(name, i)[k]),
{
    lemma_decimal_digits(i + 1);
    let x = bit_name(name, i);
    if k >= name.len() + 2 {
        assert(x[k] == decimal(i + 1)[k - name.len() - 2]);
    }
}

} // verus!
