//! General properties of the library, stated over the spec functions that
//! the public contracts use, and proved once for all inputs.

use crate::add_sub::sum_vals;
use crate::model::dec_len;
use crate::mul::pow_nat;
use crate::text::{
    all_digits, dec_chars, dec_chars_rec, lemma_dec_chars_rec, str_val, trimmed, ws_prefix,
    ws_suffix,
};
use crate::value::NonSmallInt;
use vstd::arithmetic::div_mod::lemma_fundamental_div_mod;
use vstd::prelude::*;

verus! {

/// Round trip: the decimal rendering of any number is all digits, survives
/// trimming unchanged, and parses back to the same number.
pub proof fn lemma_round_trip(n: nat)
    ensures
        trimmed(dec_chars(n)) == dec_chars(n),
        all_digits(dec_chars(n)),
        str_val(dec_chars(n)) == n,
{
    let s = dec_chars(n);
    if n == 0 {
        assert(s == seq!['0']);
        assert(s[0] == '0');
        assert(all_digits(s));
        assert(s.drop_last() =~= Seq::<char>::empty());
        assert(str_val(s) == 10 * str_val(s.drop_last()) + crate::text::char_val('0'));
    } else {
        lemma_dec_chars_rec(n);
        assert(s.len() > 0) by {
            if dec_chars_rec(n).len() == 0 {
                assert(str_val(dec_chars_rec(n)) == 0);
            }
        }
    }
    assert(!crate::text::is_space(s[0]));
    assert(ws_prefix(s) == 0);
    assert(s.skip(0) =~= s);
    assert(!crate::text::is_space(s.last()));
    assert(ws_suffix(s) == 0);
    assert(trimmed(s) =~= s);
}

/// Significant length: a nonzero number keeps one digit of significant
/// length per rendered decimal digit; zero has significant length zero.
pub proof fn lemma_significant_length(n: nat)
    ensures
        n > 0 ==> dec_len(n) == dec_chars(n).len(),
        n == 0 ==> dec_len(n) == 0,
{
    lemma_dec_chars_rec(n);
}

/// Division invariant: the quotient times the divisor plus the remainder
/// restores the dividend, and the remainder is below the divisor.
pub proof fn lemma_division_invariant(x: nat, y: nat)
    requires
        y > 0,
    ensures
        x == (x / y) * y + x % y,
        x % y < y,
{
    lemma_fundamental_div_mod(x as int, y as int);
    assert((y as int) * ((x as int) / (y as int)) == ((x as int) / (y as int)) * (y as int))
        by (nonlinear_arith);
}

/// Power identities: the zeroth power is one and the first power is the
/// base itself.
pub proof fn lemma_pow_identities(b: nat)
    ensures
        pow_nat(b, 0) == 1,
        pow_nat(b, 1) == b,
{
    assert(pow_nat(b, 0) == 1);
    assert(pow_nat(b, 1) == b * pow_nat(b, 0));
    assert(b * pow_nat(b, 0) == b) by (nonlinear_arith)
        requires
            pow_nat(b, 0) == 1,
    ;
}

/// Sum identities: the empty sequence sums to zero, and a three-element sum
/// associates either way.
pub proof fn lemma_sum_identities(a: NonSmallInt, b: NonSmallInt, c: NonSmallInt)
    ensures
        sum_vals(Seq::<NonSmallInt>::empty()) == 0,
        sum_vals(seq![a, b, c]) == a.value() + (b.value() + c.value()),
        sum_vals(seq![a, b, c]) == (a.value() + b.value()) + c.value(),
{
    assert(seq![a, b, c].drop_last() =~= seq![a, b]);
    assert(seq![a, b].drop_last() =~= seq![a]);
    assert(seq![a].drop_last() =~= Seq::<NonSmallInt>::empty());
    assert(seq![a, b, c].last() == c);
    assert(seq![a, b].last() == b);
    assert(seq![a].last() == a);
    assert(sum_vals(Seq::<NonSmallInt>::empty()) == 0);
    assert(sum_vals(seq![a]) == sum_vals(Seq::<NonSmallInt>::empty()) + a.value());
    assert(sum_vals(seq![a, b]) == sum_vals(seq![a]) + b.value());
    assert(sum_vals(seq![a, b, c]) == sum_vals(seq![a, b]) + c.value());
}

} // verus!
