//! The mathematical model of a digit-sequence number: the numeric value of a
//! little-endian decimal digit sequence, powers of ten, significant length,
//! zero-padded digit windows, and the lemmas that connect them.

use vstd::arithmetic::div_mod::{
    lemma_div_denominator, lemma_fundamental_div_mod, lemma_fundamental_div_mod_converse,
    lemma_small_mod,
};
use vstd::prelude::*;

verus! {

/// Every stored digit lies below the base.
pub open spec fn digits_ok(s: Seq<u8>) -> bool {
    forall|i: int| 0 <= i < s.len() ==> s[i] < 10
}

/// Numeric value of a little-endian digit sequence.
pub open spec fn val(s: Seq<u8>) -> nat
    decreases s.len(),
{
    if s.len() == 0 {
        0
    } else {
        s[0] as nat + 10 * val(s.skip(1))
    }
}

/// Ten to the power n.
pub open spec fn pow10(n: nat) -> nat
    decreases n,
{
    if n == 0 {
        1
    } else {
        10 * pow10((n - 1) as nat)
    }
}

/// Number of decimal digits of n; 0 for n == 0.
pub open spec fn dec_len(n: nat) -> nat
    decreases n,
{
    if n == 0 {
        0
    } else {
        1 + dec_len(n / 10)
    }
}

/// Digit at position i, reading zero past the stored length.
pub open spec fn wd(s: Seq<u8>, i: int) -> u8 {
    if 0 <= i < s.len() {
        s[i]
    } else {
        0
    }
}

/// A zero-padded window of n digits starting at position k.
pub open spec fn win(s: Seq<u8>, k: int, n: int) -> Seq<u8> {
    Seq::new(n as nat, |i: int| wd(s, k + i))
}

/// Stored length minus the run of most-significant zero digits.
pub open spec fn sig_len(s: Seq<u8>) -> nat
    decreases s.len(),
{
    if s.len() == 0 {
        0
    } else if s.last() != 0 {
        s.len()
    } else {
        sig_len(s.drop_last())
    }
}

pub proof fn lemma_pow10_pos(n: nat)
    ensures
        pow10(n) >= 1,
    decreases n,
{
    if n > 0 {
        lemma_pow10_pos((n - 1) as nat);
    }
}

pub proof fn lemma_pow10_adds(a: nat, b: nat)
    ensures
        pow10(a + b) == pow10(a) * pow10(b),
    decreases a,
{
    if a == 0 {
        assert(pow10(b) == 1 * pow10(b));
    } else {
        lemma_pow10_adds((a - 1) as nat, b);
        assert((a + b) as nat != 0);
        assert(pow10(a + b) == 10 * pow10((a - 1) as nat + b));
        assert(10 * (pow10((a - 1) as nat) * pow10(b)) == (10 * pow10((a - 1) as nat)) * pow10(b))
            by (nonlinear_arith);
    }
}

pub proof fn lemma_pow10_le(a: nat, b: nat)
    requires
        a <= b,
    ensures
        pow10(a) <= pow10(b),
{
    lemma_pow10_adds(a, (b - a) as nat);
    lemma_pow10_pos(a);
    lemma_pow10_pos((b - a) as nat);
    assert(pow10(a) * 1 <= pow10(a) * pow10((b - a) as nat)) by (nonlinear_arith)
        requires
            pow10((b - a) as nat) >= 1,
            pow10(a) >= 1,
    ;
}

pub proof fn lemma_val_bound(s: Seq<u8>)
    requires
        digits_ok(s),
    ensures
        val(s) < pow10(s.len()),
    decreases s.len(),
{
    if s.len() > 0 {
        assert(digits_ok(s.skip(1)));
        lemma_val_bound(s.skip(1));
    }
}

pub proof fn lemma_val_push(s: Seq<u8>, d: u8)
    ensures
        val(s.push(d)) == val(s) + (d as nat) * pow10(s.len()),
    decreases s.len(),
{
    if s.len() == 0 {
        assert(s.push(d).skip(1) =~= Seq::<u8>::empty());
        assert(val(s.push(d)) == d as nat + 10 * val(Seq::<u8>::empty()));
    } else {
        assert(s.push(d).skip(1) =~= s.skip(1).push(d));
        lemma_val_push(s.skip(1), d);
        assert(s.push(d)[0] == s[0]);
        assert(val(s.push(d)) == s[0] as nat + 10 * val(s.skip(1).push(d)));
        assert(pow10(s.len()) == 10 * pow10((s.len() - 1) as nat));
        assert(10 * (val(s.skip(1)) + (d as nat) * pow10((s.len() - 1) as nat)) == 10 * val(
            s.skip(1),
        ) + (d as nat) * (10 * pow10((s.len() - 1) as nat))) by (nonlinear_arith);
    }
}

pub proof fn lemma_val_insert0(s: Seq<u8>, d: u8)
    ensures
        val(s.insert(0, d)) == d as nat + 10 * val(s),
{
    assert(s.insert(0, d).skip(1) =~= s);
    assert(s.insert(0, d)[0] == d);
}

pub proof fn lemma_val_zero(s: Seq<u8>)
    requires
        forall|i: int| 0 <= i < s.len() ==> s[i] == 0,
    ensures
        val(s) == 0,
    decreases s.len(),
{
    if s.len() > 0 {
        lemma_val_zero(s.skip(1));
    }
}

pub proof fn lemma_val_skip_take(s: Seq<u8>, k: int)
    requires
        0 <= k <= s.len(),
    ensures
        val(s) == val(s.take(k)) + pow10(k as nat) * val(s.skip(k)),
    decreases k,
{
    if k == 0 {
        assert(s.take(0) =~= Seq::<u8>::empty());
        assert(s.skip(0) =~= s);
        assert(val(s) == 0 + 1 * val(s));
    } else {
        lemma_val_skip_take(s, k - 1);
        assert(s.skip(k - 1).skip(1) =~= s.skip(k));
        assert(s.take(k) =~= s.take(k - 1).push(s[k - 1]));
        lemma_val_push(s.take(k - 1), s[k - 1]);
        assert(s.skip(k - 1)[0] == s[k - 1]);
        assert(val(s.skip(k - 1)) == s[k - 1] as nat + 10 * val(s.skip(k)));
        let p = pow10((k - 1) as nat) as int;
        let d = s[k - 1] as int;
        let lo = val(s.skip(k)) as int;
        assert(pow10(k as nat) == 10 * pow10((k - 1) as nat));
        assert(p * (d + 10 * lo) == d * p + (10 * p) * lo) by (nonlinear_arith);
    }
}

/// Each digit of a well-formed sequence is determined by its value.
pub proof fn lemma_val_digit(s: Seq<u8>, i: int)
    requires
        digits_ok(s),
        0 <= i,
    ensures
        wd(s, i) as nat == (val(s) / pow10(i as nat)) % 10,
    decreases i,
{
    lemma_pow10_pos(i as nat);
    if s.len() == 0 {
        assert(val(s) == 0);
        assert(0int / pow10(i as nat) as int == 0);
    } else {
        lemma_fundamental_div_mod_converse(
            val(s) as int,
            10,
            val(s.skip(1)) as int,
            s[0] as int,
        );
        if i == 0 {
            assert(pow10(0) == 1);
        } else {
            assert(digits_ok(s.skip(1)));
            lemma_val_digit(s.skip(1), i - 1);
            assert(wd(s, i) == wd(s.skip(1), i - 1));
            lemma_pow10_pos((i - 1) as nat);
            lemma_div_denominator(val(s) as int, 10, pow10((i - 1) as nat) as int);
            assert(pow10(i as nat) == 10 * pow10((i - 1) as nat));
            assert(val(s.skip(1)) == val(s) as int / 10);
        }
    }
}

/// Splitting a remainder by a factor of ten: x mod 10p in terms of x mod p.
pub proof fn lemma_mod_split(x: int, p: int)
    requires
        x >= 0,
        p >= 1,
    ensures
        x % (10 * p) == p * ((x / p) % 10) + x % p,
{
    lemma_fundamental_div_mod(x, p);
    lemma_fundamental_div_mod(x / p, 10);
    lemma_div_denominator(x, p, 10);
    assert(0 <= x % p < p);
    assert(0 <= (x / p) % 10 < 10);
    assert(p * ((x / p) % 10) + x % p < 10 * p && x == (10 * p) * ((x / p) / 10) + (p * ((x / p)
        % 10) + x % p)) by (nonlinear_arith)
        requires
            x >= 0,
            p >= 1,
            0 <= x % p < p,
            0 <= (x / p) % 10 < 10,
            x == p * (x / p) + x % p,
            x / p == 10 * ((x / p) / 10) + (x / p) % 10,
    ;
    lemma_fundamental_div_mod_converse(
        x,
        10 * p,
        (x / p) / 10,
        p * ((x / p) % 10) + x % p,
    );
}

/// The value of a window is a quotient-and-remainder slice of the whole value.
pub proof fn lemma_win_val(s: Seq<u8>, k: int, n: int)
    requires
        digits_ok(s),
        0 <= k,
        0 <= n,
    ensures
        val(win(s, k, n)) == (val(s) / pow10(k as nat)) % pow10(n as nat),
    decreases n,
{
    lemma_pow10_pos(k as nat);
    let q = val(s) as int / pow10(k as nat) as int;
    assert(q >= 0);
    if n == 0 {
        assert(win(s, k, 0) =~= Seq::<u8>::empty());
        assert(q % 1 == 0);
    } else {
        lemma_win_val(s, k, n - 1);
        assert(win(s, k, n) =~= win(s, k, n - 1).push(wd(s, k + n - 1)));
        lemma_val_push(win(s, k, n - 1), wd(s, k + n - 1));
        lemma_val_digit(s, k + n - 1);
        lemma_pow10_adds(k as nat, (n - 1) as nat);
        lemma_pow10_pos((n - 1) as nat);
        lemma_div_denominator(val(s) as int, pow10(k as nat) as int, pow10((n - 1) as nat) as int);
        assert(wd(s, k + n - 1) as nat == (q / pow10((n - 1) as nat) as int) % 10);
        lemma_mod_split(q, pow10((n - 1) as nat) as int);
        assert(pow10(n as nat) == 10 * pow10((n - 1) as nat));
        assert(q % (10 * pow10((n - 1) as nat) as int) == pow10((n - 1) as nat) as int * ((q
            / pow10((n - 1) as nat) as int) % 10) + q % pow10((n - 1) as nat) as int);
    }
}

/// Extending a window by one digit adds that digit at the next power of ten.
pub proof fn lemma_win_step(s: Seq<u8>, k: int, n: int)
    requires
        0 <= k,
        0 <= n,
    ensures
        val(win(s, k, n + 1)) == val(win(s, k, n)) + (wd(s, k + n) as nat) * pow10(n as nat),
{
    assert(win(s, k, n + 1) =~= win(s, k, n).push(wd(s, k + n)));
    lemma_val_push(win(s, k, n), wd(s, k + n));
}

pub proof fn lemma_pow10_ten()
    ensures
        pow10(10) == 10_000_000_000,
{
    reveal_with_fuel(pow10, 11);
}

pub proof fn lemma_sig_len_le(s: Seq<u8>)
    ensures
        sig_len(s) <= s.len(),
    decreases s.len(),
{
    if s.len() > 0 && s.last() == 0 {
        lemma_sig_len_le(s.drop_last());
    }
}

pub proof fn lemma_sig_len_zeros(s: Seq<u8>)
    ensures
        forall|i: int| sig_len(s) <= i < s.len() ==> s[i] == 0,
    decreases s.len(),
{
    lemma_sig_len_le(s);
    if s.len() > 0 && s.last() == 0 {
        lemma_sig_len_zeros(s.drop_last());
        assert forall|i: int| sig_len(s) <= i < s.len() implies s[i] == 0 by {
            if i < s.len() - 1 {
                assert(s.drop_last()[i] == s[i]);
            }
        }
    }
}

pub proof fn lemma_sig_len_last(s: Seq<u8>)
    requires
        sig_len(s) > 0,
    ensures
        s[sig_len(s) - 1] != 0,
    decreases s.len(),
{
    if s.last() == 0 {
        lemma_sig_len_last(s.drop_last());
        lemma_sig_len_le(s.drop_last());
        assert(s.drop_last()[sig_len(s) - 1] == s[sig_len(s) - 1]);
    }
}

/// The characterization of significant length: all zero above, nonzero just below.
pub proof fn lemma_sig_len_unique(s: Seq<u8>, l: int)
    requires
        0 <= l <= s.len(),
        forall|i: int| l <= i < s.len() ==> s[i] == 0,
        l == 0 || s[l - 1] != 0,
    ensures
        sig_len(s) == l,
    decreases s.len(),
{
    if s.len() == 0 {
    } else if l == s.len() {
        assert(s.last() != 0);
    } else {
        assert(s.last() == 0);
        assert(forall|i: int| l <= i < s.drop_last().len() ==> s.drop_last()[i] == s[i] && s[i]
            == 0);
        if l > 0 {
            assert(s.drop_last()[l - 1] == s[l - 1]);
        }
        lemma_sig_len_unique(s.drop_last(), l);
    }
}

/// Dropping a most-significant zero digit does not change the value.
pub proof fn lemma_val_drop_last_zero(s: Seq<u8>)
    requires
        s.len() > 0,
        s.last() == 0,
    ensures
        val(s) == val(s.drop_last()),
{
    assert(s =~= s.drop_last().push(s.last()));
    lemma_val_push(s.drop_last(), s.last());
}

/// The value is below ten to the significant length.
pub proof fn lemma_val_lt_pow10_sig(s: Seq<u8>)
    requires
        digits_ok(s),
    ensures
        val(s) < pow10(sig_len(s)),
    decreases s.len(),
{
    if s.len() == 0 {
    } else if s.last() != 0 {
        lemma_val_bound(s);
    } else {
        lemma_val_drop_last_zero(s);
        assert(digits_ok(s.drop_last()));
        lemma_val_lt_pow10_sig(s.drop_last());
    }
}

/// A nonzero value is at least ten to one less than the significant length.
pub proof fn lemma_val_ge_pow10_sig(s: Seq<u8>)
    requires
        digits_ok(s),
        sig_len(s) > 0,
    ensures
        val(s) >= pow10((sig_len(s) - 1) as nat),
{
    let l = sig_len(s) as int;
    lemma_sig_len_le(s);
    lemma_sig_len_last(s);
    lemma_val_skip_take(s, l - 1);
    assert(s.skip(l - 1)[0] == s[l - 1]);
    assert(val(s.skip(l - 1)) >= 1);
    let p = pow10((l - 1) as nat) as int;
    lemma_pow10_pos((l - 1) as nat);
    assert(p * val(s.skip(l - 1)) >= p * 1) by (nonlinear_arith)
        requires
            p >= 1,
            val(s.skip(l - 1)) >= 1,
    ;
}

pub proof fn lemma_dec_len_bounds(n: nat)
    ensures
        n < pow10(dec_len(n)),
        n > 0 ==> pow10((dec_len(n) - 1) as nat) <= n,
    decreases n,
{
    if n > 0 {
        lemma_dec_len_bounds(n / 10);
        lemma_fundamental_div_mod(n as int, 10);
        if n / 10 == 0 {
        } else {
            assert(pow10(dec_len(n / 10)) == pow10((dec_len(n) - 1) as nat));
        }
    }
}

/// A value between two adjacent powers of ten has that many decimal digits.
pub proof fn lemma_dec_len_range(n: nat, l: nat)
    requires
        l > 0,
        pow10((l - 1) as nat) <= n < pow10(l),
    ensures
        dec_len(n) == l,
    decreases l,
{
    lemma_pow10_pos((l - 1) as nat);
    assert(n > 0);
    lemma_fundamental_div_mod(n as int, 10);
    if l == 1 {
        assert(n < 10);
        assert(n / 10 == 0);
        assert(dec_len(n) == 1 + dec_len(n / 10));
        assert(dec_len(0) == 0);
    } else {
        assert(pow10((l - 1) as nat) == 10 * pow10((l - 2) as nat));
        assert(pow10(l) == 10 * pow10((l - 1) as nat));
        assert(n / 10 >= pow10((l - 2) as nat) && n / 10 < pow10((l - 1) as nat))
            by (nonlinear_arith)
            requires
                n == 10 * (n as int / 10) + n as int % 10,
                0 <= n as int % 10 < 10,
                10 * pow10((l - 2) as nat) <= n,
                n < 10 * pow10((l - 1) as nat),
        ;
        lemma_dec_len_range(n / 10, (l - 1) as nat);
    }
}

/// The significant length equals the decimal digit count of the value.
pub proof fn lemma_sig_len_is_dec_len(s: Seq<u8>)
    requires
        digits_ok(s),
    ensures
        sig_len(s) == dec_len(val(s)),
{
    let l = sig_len(s);
    if l == 0 {
        lemma_sig_len_zeros(s);
        lemma_val_zero(s);
    } else {
        lemma_val_lt_pow10_sig(s);
        lemma_val_ge_pow10_sig(s);
        lemma_dec_len_range(val(s), l);
    }
}

/// Lexicographic comparison from the most-significant end decides the value order.
pub proof fn lemma_val_lex(u: Seq<u8>, v: Seq<u8>, p: int)
    requires
        digits_ok(u),
        digits_ok(v),
        u.len() == v.len(),
        0 <= p < u.len(),
        u[p] < v[p],
        forall|j: int| p < j < u.len() ==> u[j] == v[j],
    ensures
        val(u) < val(v),
{
    lemma_val_skip_take(u, p + 1);
    lemma_val_skip_take(v, p + 1);
    assert(u.skip(p + 1) =~= v.skip(p + 1));
    assert(u.take(p + 1) =~= u.take(p).push(u[p]));
    assert(v.take(p + 1) =~= v.take(p).push(v[p]));
    lemma_val_push(u.take(p), u[p]);
    lemma_val_push(v.take(p), v[p]);
    assert(digits_ok(u.take(p)));
    lemma_val_bound(u.take(p));
    let q = pow10(p as nat) as int;
    lemma_pow10_pos(p as nat);
    assert(val(u.take(p)) as int + (u[p] as int) * q < (v[p] as int) * q) by (nonlinear_arith)
        requires
            q >= 1,
            val(u.take(p)) < q,
            u[p] < v[p],
    ;
    assert(val(v.take(p)) >= 0);
}

/// A quotient is bounded when the dividend is bounded by a multiple.
pub proof fn lemma_div_lt(x: int, b: int, a: int)
    requires
        0 <= x,
        0 < b,
        x < a * b,
    ensures
        x / b < a,
{
    lemma_fundamental_div_mod(x, b);
    if x / b >= a {
        assert((x / b) * b >= a * b) by (nonlinear_arith)
            requires
                x / b >= a,
                b > 0,
        ;
        assert(x == b * (x / b) + x % b);
        assert(b * (x / b) == (x / b) * b) by (nonlinear_arith);
        assert(x % b >= 0);
    }
}

/// Replacing one digit changes the value by the digit difference at its
/// position.
pub proof fn lemma_val_update(s: Seq<u8>, i: int, d: u8)
    requires
        0 <= i < s.len(),
    ensures
        val(s.update(i, d)) + (s[i] as nat) * pow10(i as nat) == val(s) + (d as nat) * pow10(
            i as nat,
        ),
    decreases i,
{
    if i == 0 {
        assert(s.update(0, d).skip(1) =~= s.skip(1));
        assert(s.update(0, d)[0] == d);
        assert(pow10(0) == 1);
        assert(val(s.update(0, d)) == d as nat + 10 * val(s.skip(1)));
        assert(val(s) == s[0] as nat + 10 * val(s.skip(1)));
        assert((s[i] as int) * (pow10(i as nat) as int) == s[i] as int) by (nonlinear_arith)
            requires
                pow10(i as nat) == 1,
        ;
        assert((d as int) * (pow10(i as nat) as int) == d as int) by (nonlinear_arith)
            requires
                pow10(i as nat) == 1,
        ;
    } else {
        assert(s.update(i, d).skip(1) =~= s.skip(1).update(i - 1, d));
        assert(s.update(i, d)[0] == s[0]);
        assert(s.skip(1)[i - 1] == s[i]);
        lemma_val_update(s.skip(1), i - 1, d);
        let p = pow10((i - 1) as nat) as int;
        let a = val(s.skip(1).update(i - 1, d)) as int;
        let b = val(s.skip(1)) as int;
        assert(pow10(i as nat) == 10 * pow10((i - 1) as nat));
        assert(val(s.update(i, d)) == s[0] as nat + 10 * val(s.skip(1).update(i - 1, d)));
        assert(val(s) == s[0] as nat + 10 * val(s.skip(1)));
        assert(10 * a + (s[i] as int) * (10 * p) == 10 * b + (d as int) * (10 * p))
            by (nonlinear_arith)
            requires
                a + (s[i] as int) * p == b + (d as int) * p,
        ;
        assert((s[i] as int) * (pow10(i as nat) as int) == (s[i] as int) * (10 * p))
            by (nonlinear_arith)
            requires
                pow10(i as nat) as int == 10 * p,
        ;
        assert((d as int) * (pow10(i as nat) as int) == (d as int) * (10 * p))
            by (nonlinear_arith)
            requires
                pow10(i as nat) as int == 10 * p,
        ;
    }
}

/// A sequence whose digits vanish from position kk on has a small value.
pub proof fn lemma_val_high_zero(s: Seq<u8>, kk: int)
    requires
        digits_ok(s),
        0 <= kk,
        forall|p: int| kk <= p < s.len() ==> s[p] == 0,
    ensures
        val(s) < pow10(kk as nat),
{
    if kk >= s.len() {
        lemma_val_bound(s);
        lemma_pow10_le(s.len(), kk as nat);
    } else {
        lemma_val_skip_take(s, kk);
        lemma_val_zero(s.skip(kk));
        assert(digits_ok(s.take(kk)));
        lemma_val_bound(s.take(kk));
    }
}

/// A small value has no digits at or above the bounding position.
pub proof fn lemma_high_digits_zero(s: Seq<u8>, kk: int, p: int)
    requires
        digits_ok(s),
        0 <= kk <= p,
        val(s) < pow10(kk as nat),
    ensures
        wd(s, p) == 0,
{
    lemma_val_digit(s, p);
    lemma_pow10_le(kk as nat, p as nat);
    lemma_pow10_pos(p as nat);
    lemma_div_lt(val(s) as int, pow10(p as nat) as int, 1);
}

/// A digit of the quotient by a power of ten is a digit of the sequence.
pub proof fn lemma_digit_shift(s: Seq<u8>, k: int, j: int)
    requires
        digits_ok(s),
        0 <= k,
        0 <= j,
    ensures
        wd(s, k + j) as nat == ((val(s) / pow10(k as nat)) / pow10(j as nat)) % 10,
{
    lemma_val_digit(s, k + j);
    lemma_pow10_adds(k as nat, j as nat);
    lemma_pow10_pos(k as nat);
    lemma_pow10_pos(j as nat);
    lemma_div_denominator(val(s) as int, pow10(k as nat) as int, pow10(j as nat) as int);
}

/// The three-by-two trial estimate brackets the true quotient digit: with the
/// divisor's top two digits at least the base, the estimate is never low and
/// at most one too high.
pub proof fn lemma_trial_estimate(w: int, dv: int, r3: int, d2: int, pm2: int, qt: int)
    requires
        0 <= w,
        pm2 >= 1,
        d2 >= 10,
        r3 == w / pm2,
        d2 == dv / pm2,
        w < 10 * dv,
        qt == if r3 / d2 < 9 {
            r3 / d2
        } else {
            9
        },
    ensures
        w / dv <= qt,
        qt <= w / dv + 1,
{
    let q = w / dv;
    lemma_fundamental_div_mod(w, dv);
    lemma_fundamental_div_mod(w, pm2);
    lemma_fundamental_div_mod(r3, d2);
    lemma_fundamental_div_mod(dv, pm2);
    assert(dv >= d2 * pm2 && dv < (d2 + 1) * pm2) by (nonlinear_arith)
        requires
            dv == pm2 * d2 + dv % pm2,
            0 <= dv % pm2 < pm2,
    ;
    assert(dv > 0);
    lemma_div_lt(w, dv, 10);
    assert(q <= 9);
    assert(q >= 0);
    assert(q * d2 <= r3) by (nonlinear_arith)
        requires
            w == dv * q + w % dv,
            0 <= w % dv,
            w == pm2 * r3 + w % pm2,
            0 <= w % pm2 < pm2,
            dv >= d2 * pm2,
            pm2 >= 1,
            d2 >= 10,
            q >= 0,
    ;
    assert(q <= r3 / d2) by (nonlinear_arith)
        requires
            q * d2 <= r3,
            r3 == d2 * (r3 / d2) + r3 % d2,
            0 <= r3 % d2 < d2,
            d2 > 0,
    ;
    assert(w / dv <= qt);
    if qt > q + 1 {
        assert(qt * d2 <= r3) by (nonlinear_arith)
            requires
                qt <= r3 / d2,
                r3 == d2 * (r3 / d2) + r3 % d2,
                0 <= r3 % d2,
                d2 > 0,
                qt >= 0,
        ;
        assert(false) by (nonlinear_arith)
            requires
                qt * d2 <= r3,
                w >= pm2 * r3,
                dv < (d2 + 1) * pm2,
                w == dv * q + w % dv,
                0 <= w % dv < dv,
                qt >= q + 2,
                qt <= 9,
                q >= 0,
                pm2 >= 1,
                d2 >= 10,
                dv >= d2 * pm2,
        ;
    }
}

/// The whole value of a sequence is read by a window that covers its digits.
pub proof fn lemma_win_covers(s: Seq<u8>, n: int)
    requires
        digits_ok(s),
        sig_len(s) <= n,
    ensures
        val(win(s, 0, n)) == val(s),
{
    lemma_win_val(s, 0, n);
    lemma_val_lt_pow10_sig(s);
    lemma_pow10_le(sig_len(s), n as nat);
    assert(pow10(0) == 1);
    assert(val(s) as int / 1 == val(s));
    lemma_small_mod(val(s), pow10(n as nat));
}

} // verus!
