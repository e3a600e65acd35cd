//! The division engine: a scalar fast path, a trivial-result shortcut, and
//! full normalized long division with a three-by-two trial digit estimate
//! and at most one correction per digit.

use crate::model::{
    dec_len, digits_ok, lemma_dec_len_bounds, lemma_digit_shift, lemma_div_lt,
    lemma_high_digits_zero, lemma_pow10_adds, lemma_pow10_le, lemma_pow10_pos,
    lemma_sig_len_is_dec_len, lemma_sig_len_last, lemma_sig_len_le, lemma_trial_estimate,
    lemma_val_bound, lemma_val_ge_pow10_sig, lemma_val_insert0, lemma_val_lex,
    lemma_val_lt_pow10_sig, lemma_val_push, lemma_val_update, lemma_val_high_zero,
    lemma_val_zero, lemma_win_step, lemma_win_val, pow10, sig_len, val, wd,
    win,
};
use crate::value::{lookup, NonSmallInt};
use vstd::arithmetic::div_mod::{
    lemma_fundamental_div_mod, lemma_fundamental_div_mod_converse, lemma_small_mod,
};
use vstd::prelude::*;

verus! {

broadcast use crate::value::lemma_view;

impl NonSmallInt {
    /// Scalar division fast path: returns (quotient, remainder), or nothing
    /// for a zero divisor.
    pub fn div_u32(&self, rhs: u32) -> (res: Option<(NonSmallInt, NonSmallInt)>)
        ensures
            match res {
                Some(qr) => rhs != 0 && qr.0.value() == self.value() / (rhs as nat)
                    && qr.1.value() == self.value() % (rhs as nat),
                None => rhs == 0,
            },
    {
        if rhs == 0 {
            return None;
        }
        proof {
            use_type_invariant(&*self);
        }
        let rhs64: u64 = rhs as u64;
        let mut quotient: Vec<u8> = Vec::new();
        let mut carry: u64 = 0;
        let mut i: usize = self.digits.len();
        proof {
            assert(self@.skip(self@.len() as int) =~= Seq::<u8>::empty());
            assert(quotient@ =~= Seq::<u8>::empty());
            assert(val(Seq::<u8>::empty()) == 0);
        }
        while i > 0
            invariant
                i <= self@.len(),
                digits_ok(self@),
                digits_ok(quotient@),
                quotient@.len() == self@.len() - i,
                carry < rhs64,
                rhs64 == rhs,
                rhs != 0,
                val(self@.skip(i as int)) == val(quotient@) * (rhs as nat) + carry as nat,
            decreases i,
        {
            i -= 1;
            let digit = self.digits[i];
            let ghost q0 = quotient@;
            let ghost c0 = carry as int;
            let temp: u64 = carry * 10 + digit as u64;
            proof {
                lemma_div_lt(temp as int, rhs as int, 10);
            }
            let out: u8 = (temp / rhs64) as u8;
            carry = temp % rhs64;
            quotient.insert(0, out);
            proof {
                assert(self@.skip(i as int).skip(1) =~= self@.skip(i as int + 1));
                assert(self@.skip(i as int)[0] == self@[i as int]);
                lemma_val_insert0(q0, out);
                lemma_div_lt(temp as int, rhs as int, 10);
                lemma_fundamental_div_mod(temp as int, rhs as int);
                assert((digit as int) + 10 * (val(q0) as int * rhs + c0) == (out as int + 10 * val(
                    q0,
                ) as int) * rhs + carry as int) by (nonlinear_arith)
                    requires
                        temp as int == 10 * c0 + digit as int,
                        temp as int == rhs as int * (out as int) + carry as int,
                ;
            }
        }
        proof {
            assert(self@.skip(0) =~= self@);
            lemma_fundamental_div_mod_converse(
                val(self@) as int,
                rhs as int,
                val(quotient@) as int,
                carry as int,
            );
        }
        let mut remainder: Vec<u8> = Vec::new();
        let ghost carry0 = carry as nat;
        proof {
            assert(remainder@ =~= Seq::<u8>::empty());
            assert(pow10(0) == 1);
        }
        while carry > 0
            invariant
                digits_ok(remainder@),
                val(remainder@) + (carry as nat) * pow10(remainder@.len()) == carry0,
            decreases carry,
        {
            let ghost r0 = remainder@;
            let ghost c0 = carry as int;
            let out: u8 = (carry % 10) as u8;
            remainder.push(out);
            carry = carry / 10;
            proof {
                lemma_val_push(r0, out);
                let p = pow10(r0.len()) as int;
                assert(pow10((r0.len() + 1) as nat) == 10 * pow10(r0.len()));
                assert((out as int) * p + (c0 / 10) * (10 * p) == c0 * p) by (nonlinear_arith)
                    requires
                        c0 == 10 * (c0 / 10) + out as int,
                ;
            }
        }
        Some((NonSmallInt { digits: quotient }, NonSmallInt { digits: remainder }))
    }

    /// Full division dispatch: scalar fast path, trivial-result shortcut, or
    /// normalized long division; nothing for a zero divisor.
    pub fn div_nsi(&self, rhs: &NonSmallInt) -> (res: Option<(NonSmallInt, NonSmallInt)>)
        ensures
            match res {
                Some(qr) => rhs.value() != 0 && qr.0.value() == self.value() / rhs.value()
                    && qr.1.value() == self.value() % rhs.value(),
                None => rhs.value() == 0,
            },
    {
        proof {
            use_type_invariant(&*self);
            use_type_invariant(&*rhs);
            lemma_sig_len_is_dec_len(self@);
            lemma_sig_len_is_dec_len(rhs@);
            lemma_sig_len_le(self@);
            lemma_sig_len_le(rhs@);
        }
        if rhs.is_zero() {
            None
        } else if rhs.length(10) == 1 {
            proof {
                lemma_val_lt_pow10_sig(rhs@);
                crate::model::lemma_val_digit(rhs@, 0);
                lemma_small_mod(rhs.value(), 10);
                assert(pow10(0) == 1);
                assert(pow10(1) == 10);
                assert(rhs@[0] == rhs.value());
            }
            self.div_u32(rhs.digits[0] as u32)
        } else if self.length(10) < rhs.length(10) {
            proof {
                lemma_val_lt_pow10_sig(self@);
                lemma_val_ge_pow10_sig(rhs@);
                lemma_pow10_le(sig_len(self@), (sig_len(rhs@) - 1) as nat);
                lemma_div_lt(self.value() as int, rhs.value() as int, 1);
                lemma_small_mod(self.value(), rhs.value());
            }
            let q: Vec<u8> = Vec::new();
            proof {
                assert(q@ =~= Seq::<u8>::empty());
            }
            Some((NonSmallInt { digits: q }, self.clone()))
        } else {
            long_division(self, rhs)
        }
    }

    /// Quotient of full division; the divisor must not be zero.
    pub fn div(&self, rhs: &NonSmallInt) -> (res: NonSmallInt)
        requires
            rhs.value() != 0,
        ensures
            res.value() == self.value() / rhs.value(),
    {
        match self.div_nsi(rhs) {
            Some(qr) => qr.0,
            None => unreached(),
        }
    }

    /// Remainder of full division; the divisor must not be zero.
    pub fn rem(&self, rhs: &NonSmallInt) -> (res: NonSmallInt)
        requires
            rhs.value() != 0,
        ensures
            res.value() == self.value() % rhs.value(),
    {
        match self.div_nsi(rhs) {
            Some(qr) => qr.1,
            None => unreached(),
        }
    }
}

/// Answers whether the m + 1 digit window of r at offset k is strictly
/// smaller than dq, comparing digit by digit from the most-significant end.
fn smaller(r: &Vec<u8>, dq: &Vec<u8>, k: usize, m: usize) -> (res: bool)
    requires
        digits_ok(r@),
        digits_ok(dq@),
        k + m + 1 <= usize::MAX,
        val(r@) < pow10((k + m + 1) as nat),
        val(dq@) < pow10((m + 1) as nat),
    ensures
        res == (val(r@) / pow10(k as nat) < val(dq@)),
{
    let ghost u = win(r@, k as int, (m + 1) as int);
    let ghost v = win(dq@, 0, (m + 1) as int);
    proof {
        lemma_win_val(r@, k as int, (m + 1) as int);
        lemma_win_val(dq@, 0, (m + 1) as int);
        lemma_pow10_adds(k as nat, (m + 1) as nat);
        lemma_pow10_pos(k as nat);
        lemma_div_lt(val(r@) as int, pow10(k as nat) as int, pow10((m + 1) as nat) as int);
        lemma_small_mod(val(r@) / pow10(k as nat), pow10((m + 1) as nat));
        lemma_small_mod(val(dq@), pow10((m + 1) as nat));
        assert(pow10(0) == 1);
        assert(val(dq@) as int / 1 == val(dq@) as int);
        assert(val(u) == val(r@) / pow10(k as nat));
        assert(val(v) == val(dq@));
        assert(digits_ok(u));
        assert(digits_ok(v));
    }
    let mut i: usize = m;
    while i > 0 && lookup(r, i + k) == lookup(dq, i)
        invariant
            i <= m,
            k + m + 1 <= usize::MAX,
            u == win(r@, k as int, (m + 1) as int),
            v == win(dq@, 0, (m + 1) as int),
            digits_ok(r@),
            digits_ok(dq@),
            forall|j: int| i < j <= m ==> u[j] == v[j],
        decreases i,
    {
        proof {
            assert(u[i as int] == wd(r@, i + k));
            assert(v[i as int] == wd(dq@, i as int));
        }
        i -= 1;
    }
    let a = lookup(r, i + k);
    let b = lookup(dq, i);
    proof {
        assert(u[i as int] == a);
        assert(v[i as int] == b);
        if a < b {
            lemma_val_lex(u, v, i as int);
        } else if b < a {
            lemma_val_lex(v, u, i as int);
        } else {
            assert(u =~= v);
        }
    }
    a < b
}

/// The trial quotient digit: the top three window digits of the remainder
/// divided by the top two digits of the scaled divisor, capped at the
/// largest digit; never low, and at most one too high.
fn trial(r: &Vec<u8>, d: &Vec<u8>, k: usize, m: usize) -> (qt: u8)
    requires
        digits_ok(r@),
        digits_ok(d@),
        m >= 2,
        k + m + 1 <= usize::MAX,
        val(r@) < pow10((k + m + 1) as nat),
        pow10((m - 1) as nat) <= val(d@) < pow10(m as nat),
        val(r@) / pow10(k as nat) < 10 * val(d@),
    ensures
        qt <= 9,
        (val(r@) / pow10(k as nat)) / val(d@) <= qt as nat,
        qt as nat <= (val(r@) / pow10(k as nat)) / val(d@) + 1,
{
    let km = k + m;
    let t2 = lookup(r, km);
    let t1 = lookup(r, km - 1);
    let t0 = lookup(r, km - 2);
    let h1 = lookup(d, m - 1);
    let h0 = lookup(d, m - 2);
    let r3: u64 = (t2 as u64 * 10 + t1 as u64) * 10 + t0 as u64;
    let d2: u64 = h1 as u64 * 10 + h0 as u64;
    let ghost w = val(r@) / pow10(k as nat);
    let ghost dv = val(d@);
    let ghost pm2 = pow10((m - 2) as nat) as int;
    proof {
        lemma_pow10_pos((m - 2) as nat);
        lemma_pow10_pos(k as nat);
        lemma_pow10_adds(k as nat, (m + 1) as nat);
        assert((k + m + 1) as nat == k as nat + (m + 1) as nat);
        assert(pow10((k + m + 1) as nat) == pow10(k as nat) * pow10((m + 1) as nat));
        assert((val(r@) as int) < pow10((m + 1) as nat) as int * (pow10(k as nat) as int))
            by (nonlinear_arith)
            requires
                (val(r@) as int) < pow10((k + m + 1) as nat) as int,
                pow10((k + m + 1) as nat) as int == pow10(k as nat) as int * (pow10(
                    (m + 1) as nat,
                ) as int),
        ;
        lemma_div_lt(val(r@) as int, pow10(k as nat) as int, pow10((m + 1) as nat) as int);
        lemma_pow10_adds((m - 2) as nat, 3);
        assert(pow10(3) == 1000) by {
            reveal_with_fuel(pow10, 4);
        }
        let x = w as int / pm2;
        lemma_div_lt(w as int, pm2, 1000);
        lemma_digit_shift(r@, k as int, (m - 2) as int);
        lemma_digit_shift(r@, k as int, (m - 1) as int);
        lemma_digit_shift(r@, k as int, m as int);
        lemma_pow10_adds((m - 2) as nat, 1);
        lemma_pow10_adds((m - 2) as nat, 2);
        assert(pow10(1) == 10);
        assert(pow10(2) == 100) by {
            reveal_with_fuel(pow10, 3);
        }
        vstd::arithmetic::div_mod::lemma_div_denominator(w as int, pm2, 10);
        vstd::arithmetic::div_mod::lemma_div_denominator(w as int, pm2, 100);
        assert(pow10(0) == 1);
        assert((w as int / pow10((m - 2) as nat) as int) / 1 == x);
        assert(t0 as int == x % 10);
        assert(t1 as int == (x / 10) % 10);
        assert(t2 as int == (x / 100) % 10);
        lemma_div_lt(x, 100, 10);
        lemma_small_mod((x / 100) as nat, 10);
        lemma_fundamental_div_mod(x, 100);
        crate::model::lemma_mod_split(x, 10);
        assert(r3 as int == x);
        let y = dv as int / pm2;
        lemma_div_lt(dv as int, pm2, 100);
        lemma_digit_shift(d@, 0, (m - 2) as int);
        lemma_digit_shift(d@, 0, (m - 1) as int);
        assert(dv as int / pow10(0) as int == dv as int);
        vstd::arithmetic::div_mod::lemma_div_denominator(dv as int, pm2, 10);
        assert(h0 as int == y % 10);
        assert(h1 as int == (y / 10) % 10);
        lemma_div_lt(y, 10, 10);
        lemma_small_mod((y / 10) as nat, 10);
        lemma_fundamental_div_mod(y, 10);
        assert(d2 as int == y);
        lemma_pow10_adds((m - 2) as nat, 1);
        lemma_fundamental_div_mod(dv as int, pm2);
        assert(y >= 10) by (nonlinear_arith)
            requires
                dv as int >= 10 * pm2,
                dv as int == pm2 * y + dv as int % pm2,
                0 <= dv as int % pm2 < pm2,
                pm2 >= 1,
        ;
    }
    let q64: u64 = r3 / d2;
    let qt64: u64 = if q64 < 9 {
        q64
    } else {
        9
    };
    proof {
        lemma_trial_estimate(w as int, dv as int, r3 as int, d2 as int, pm2, qt64 as int);
    }
    qt64 as u8
}

/// Subtracts dq from the m + 1 digit window of r at offset k in place, by
/// schoolbook borrow subtraction restricted to that window.
fn difference(r: &mut Vec<u8>, dq: &Vec<u8>, k: usize, m: usize)
    requires
        digits_ok(old(r)@),
        digits_ok(dq@),
        k + m + 1 <= old(r)@.len(),
        val(old(r)@) < pow10((k + m + 1) as nat),
        pow10(k as nat) * val(dq@) <= val(old(r)@),
        val(dq@) < pow10((m + 1) as nat),
    ensures
        final(r)@.len() == old(r)@.len(),
        digits_ok(final(r)@),
        val(final(r)@) == val(old(r)@) - pow10(k as nat) * val(dq@),
{
    let ghost r0 = r@;
    let rl: usize = r.len();
    let mut borrow: u64 = 0;
    let mut i: usize = 0;
    proof {
        assert(win(dq@, 0, 0) =~= Seq::<u8>::empty());
        assert(val(Seq::<u8>::empty()) == 0);
        lemma_pow10_pos(k as nat);
        assert(r0.len() == rl as nat);
    }
    while i <= m
        invariant
            i <= m + 1,
            k + m + 1 <= usize::MAX,
            k + m + 1 <= r0.len(),
            r@.len() == r0.len(),
            digits_ok(r@),
            digits_ok(r0),
            digits_ok(dq@),
            borrow <= 1,
            forall|p: int| 0 <= p < r0.len() && !(k <= p < k + i) ==> r@[p] == r0[p],
            val(r@) + pow10(k as nat) * val(win(dq@, 0, i as int)) == val(r0) + (borrow as nat)
                * pow10((k + i) as nat),
        decreases m + 1 - i,
    {
        let rd = r[i + k];
        let dqd = lookup(dq, i);
        let ghost rprev = r@;
        let ghost b0 = borrow as int;
        let diff: u64 = 10 + rd as u64 - dqd as u64 - borrow;
        r.set(i + k, (diff % 10) as u8);
        borrow = 1 - diff / 10;
        proof {
            lemma_val_update(rprev, (i + k) as int, (diff % 10) as u8);
            lemma_win_step(dq@, 0, i as int);
            lemma_pow10_adds(k as nat, i as nat);
            lemma_pow10_pos(k as nat);
            let pk = pow10(k as nat) as int;
            let pi = pow10(i as nat) as int;
            let pki = pow10((k + i) as nat) as int;
            assert(pow10((k + i + 1) as nat) == 10 * pow10((k + i) as nat));
            let dval0 = val(win(dq@, 0, i as int)) as int;
            assert(val(r@) as int == val(rprev) as int + ((diff % 10) as int) * pki - (
            rd as int) * pki);
            assert(((diff % 10) as int) * pki - (rd as int) * pki + pk * (dval0 + (dqd as int)
                * pi) == pk * dval0 + ((1 - (diff as int / 10)) * (10 * pki)) - b0 * pki)
                by (nonlinear_arith)
                requires
                    diff as int == 10 + rd as int - dqd as int - b0,
                    diff as int == 10 * (diff as int / 10) + diff as int % 10,
                    pki == pk * pi,
                    pk >= 1,
            ;
        }
        i += 1;
    }
    proof {
        lemma_win_val(dq@, 0, (m + 1) as int);
        assert(pow10(0) == 1);
        assert(val(dq@) as int / 1 == val(dq@) as int);
        lemma_small_mod(val(dq@), pow10((m + 1) as nat));
        assert(val(win(dq@, 0, (m + 1) as int)) == val(dq@));
        if borrow == 1 {
            assert forall|p: int| k + m + 1 <= p < r@.len() implies r@[p] == 0 by {
                assert(r@[p] == r0[p]);
                lemma_high_digits_zero(r0, (k + m + 1) as int, p);
                assert(wd(r0, p) == r0[p]);
            }
            lemma_val_high_zero(r@, (k + m + 1) as int);
            assert(false);
        }
    }
}

/// Normalized long division; the divisor must have at least two significant
/// digits and not exceed the dividend in significant length.
pub fn long_division(lhs: &NonSmallInt, rhs: &NonSmallInt) -> (res: Option<
    (NonSmallInt, NonSmallInt),
>)
    requires
        2 <= dec_len(rhs.value()),
        dec_len(rhs.value()) <= dec_len(lhs.value()),
    ensures
        match res {
            Some(qr) => qr.0.value() == lhs.value() / rhs.value() && qr.1.value() == lhs.value()
                % rhs.value(),
            None => false,
        },
{
    proof {
        use_type_invariant(&*lhs);
        use_type_invariant(&*rhs);
        lemma_sig_len_is_dec_len(lhs@);
        lemma_sig_len_is_dec_len(rhs@);
        lemma_sig_len_le(lhs@);
        lemma_sig_len_le(rhs@);
        lemma_dec_len_bounds(rhs.value());
        lemma_pow10_pos((dec_len(rhs.value()) - 1) as nat);
    }
    if rhs.is_zero() {
        proof {
            assert(dec_len(0) == 0);
            assert(false);
        }
        None
    } else {
        let n = lhs.length(10);
        let m = rhs.length(10);
        let top = rhs.digits[m - 1];
        proof {
            lemma_sig_len_last(rhs@);
            crate::model::lemma_sig_len_zeros(rhs@);
        }
        let f: u8 = 10 / (top + 1);
        let ghost x_val = lhs.value();
        let ghost y_val = rhs.value();
        proof {
            lemma_fundamental_div_mod(10, top as int + 1);
            assert(1 <= f as int && f as int <= 5 && (f as int) * (top as int + 1) <= 10)
                by (nonlinear_arith)
                requires
                    f as int == 10int / (top as int + 1),
                    10int == (top as int + 1) * (10int / (top as int + 1)) + 10int % (top as int + 1),
                    0 <= 10int % (top as int + 1) < top as int + 1,
                    1 <= top as int <= 9,
            ;
        }
        let d = rhs.mul_u32(f as u32);
        let scaled = lhs.mul_u32(f as u32);
        let ghost dd = d.value();
        let ghost xs = scaled.value();
        proof {
            use_type_invariant(&d);
            let p1 = pow10((m - 1) as nat) as int;
            lemma_pow10_pos((m - 1) as nat);
            lemma_val_ge_pow10_sig(rhs@);
            lemma_val_lt_pow10_sig(lhs@);
            // the divisor's value is below (top + 1) times its leading power
            crate::model::lemma_val_skip_take(rhs@, m as int - 1);
            assert(digits_ok(rhs@.take(m as int - 1)));
            lemma_val_bound(rhs@.take(m as int - 1));
            let tail = rhs@.skip(m as int - 1);
            assert(tail[0] == rhs@[m as int - 1]);
            assert(forall|j: int|
                0 <= j < tail.skip(1).len() ==> tail.skip(1)[j] == rhs@[m + j] && rhs@[m + j]
                    == 0);
            lemma_val_zero(tail.skip(1));
            assert(val(tail) == top as nat);
            assert((y_val as int) < (top as int + 1) * p1) by (nonlinear_arith)
                requires
                    y_val as int == (val(rhs@.take(m as int - 1)) as int) + p1 * (top as int),
                    (val(rhs@.take(m as int - 1)) as int) < p1,
            ;
            // the scaled divisor keeps exactly m significant digits in value
            assert(pow10(m as nat) == 10 * pow10((m - 1) as nat));
            assert(dd as int >= p1 && (dd as int) < 10 * p1) by (nonlinear_arith)
                requires
                    dd as int == y_val as int * (f as int),
                    1 <= f as int,
                    (f as int) * (top as int + 1) <= 10,
                    y_val as int >= p1,
                    (y_val as int) < (top as int + 1) * p1,
                    p1 >= 1,
                    0 <= top as int,
            ;
            // the scaled dividend is below the divisor shifted past its top
            lemma_pow10_adds((m - 1) as nat, (n - m + 1) as nat);
            lemma_pow10_pos((n - m + 1) as nat);
            assert((xs as int) < dd as int * (pow10((n - m + 1) as nat) as int))
                by (nonlinear_arith)
                requires
                    xs as int == x_val as int * (f as int),
                    dd as int == y_val as int * (f as int),
                    (x_val as int) < pow10(n as nat) as int,
                    pow10(n as nat) as int == pow10((m - 1) as nat) as int * (pow10(
                        (n - m + 1) as nat,
                    ) as int),
                    y_val as int >= pow10((m - 1) as nat) as int,
                    f as int >= 1,
                    pow10((n - m + 1) as nat) as int >= 1,
                    pow10((m - 1) as nat) as int >= 1,
            ;
        }
        let mut rd: Vec<u8> = scaled.into_digits();
        while rd.len() <= n
            invariant
                digits_ok(rd@),
                val(rd@) == xs,
            decreases n + 1 - rd@.len(),
        {
            let ghost r0 = rd@;
            rd.push(0);
            proof {
                lemma_val_push(r0, 0);
            }
        }
        let ghost rlen = rd@.len();
        let rl: usize = rd.len();
        let mut q: Vec<u8> = Vec::new();
        let mut k: usize = n - m + 1;
        proof {
            assert(q@ =~= Seq::<u8>::empty());
            assert(val(q@) == 0);
            assert(rlen == rl as nat);
        }
        while k > 0
            invariant
                k <= n - m + 1,
                m >= 2,
                m <= n,
                rd@.len() == rlen,
                rlen >= n + 1,
                rlen <= usize::MAX,
                digits_ok(rd@),
                digits_ok(q@),
                q@.len() == n - m + 1 - k,
                d.value() == dd,
                pow10((m - 1) as nat) <= dd,
                dd < pow10(m as nat),
                val(rd@) + pow10(k as nat) * dd * val(q@) == xs,
                val(rd@) < pow10(k as nat) * dd,
            decreases k,
        {
            k -= 1;
            proof {
                use_type_invariant(&d);
            }
            let ghost w = val(rd@) / pow10(k as nat);
            proof {
                lemma_pow10_pos(k as nat);
                assert(pow10((k + 1) as nat) == 10 * pow10(k as nat));
                assert((val(rd@) as int) < pow10(k as nat) as int * (10 * dd as int))
                    by (nonlinear_arith)
                    requires
                        (val(rd@) as int) < pow10((k + 1) as nat) as int * (dd as int),
                        pow10((k + 1) as nat) as int == 10 * pow10(k as nat) as int,
                ;
                lemma_div_lt(val(rd@) as int, pow10(k as nat) as int, 10 * dd as int);
                lemma_pow10_adds((k + 1) as nat, m as nat);
                assert(val(rd@) < pow10((k + m + 1) as nat)) by (nonlinear_arith)
                    requires
                        (val(rd@) as int) < pow10((k + 1) as nat) as int * (dd as int),
                        (dd as int) < pow10(m as nat) as int,
                        pow10((k + m + 1) as nat) as int == pow10((k + 1) as nat) as int * (pow10(
                            m as nat,
                        ) as int),
                        pow10((k + 1) as nat) as int >= 1,
                ;
            }
            let qt0 = trial(&rd, &d.digits, k, m);
            let dq0 = d.mul_u32(qt0 as u32);
            proof {
                use_type_invariant(&dq0);
                assert(pow10((m + 1) as nat) == 10 * pow10(m as nat));
                assert((dq0.value() as int) < pow10((m + 1) as nat) as int) by (nonlinear_arith)
                    requires
                        dq0.value() as int == dd as int * (qt0 as int),
                        (dd as int) < pow10(m as nat) as int,
                        0 <= qt0 as int <= 9,
                        0 <= dd as int,
                        pow10((m + 1) as nat) as int == 10 * pow10(m as nat) as int,
                ;
            }
            let is_less = smaller(&rd, &dq0.digits, k, m);
            let ghost q_true = w / dd;
            proof {
                lemma_fundamental_div_mod(w as int, dd as int);
            }
            let (qt, dq) = if is_less {
                proof {
                    assert(qt0 as int >= 1) by (nonlinear_arith)
                        requires
                            (w as int) < dd as int * (qt0 as int),
                            w as int >= 0,
                            dd as int >= 1,
                            qt0 as int >= 0,
                    ;
                }
                let qt1 = qt0 - 1;
                let dq1 = d.mul_u32(qt1 as u32);
                (qt1, dq1)
            } else {
                (qt0, dq0)
            };
            proof {
                use_type_invariant(&dq);
                if is_less {
                    assert((q_true as int) < qt0 as int) by (nonlinear_arith)
                        requires
                            w as int == dd as int * (q_true as int) + w as int % (dd as int),
                            0 <= w as int % (dd as int),
                            (w as int) < dd as int * (qt0 as int),
                            dd as int >= 1,
                    ;
                    assert(qt as int == q_true as int);
                } else {
                    assert(qt0 as int <= q_true as int) by (nonlinear_arith)
                        requires
                            w as int >= dd as int * (qt0 as int),
                            w as int == dd as int * (q_true as int) + w as int % (dd as int),
                            0 <= w as int % (dd as int) < dd as int,
                            dd as int >= 1,
                            qt0 as int >= 0,
                    ;
                    assert(qt as int == q_true as int);
                }
                assert(dq.value() == dd * (qt as nat));
                lemma_fundamental_div_mod(val(rd@) as int, pow10(k as nat) as int);
                assert(pow10(k as nat) as int * (dd as int * (q_true as int)) <= val(
                    rd@,
                ) as int) by (nonlinear_arith)
                    requires
                        dd as int * (q_true as int) <= w as int,
                        val(rd@) as int == pow10(k as nat) as int * (w as int) + val(rd@) as int
                            % (pow10(k as nat) as int),
                        0 <= val(rd@) as int % (pow10(k as nat) as int),
                        pow10(k as nat) as int >= 1,
                        w as int >= 0,
                ;
                assert((dq.value() as int) < pow10((m + 1) as nat) as int) by (nonlinear_arith)
                    requires
                        dq.value() as int == dd as int * (qt as int),
                        (dd as int) < pow10(m as nat) as int,
                        0 <= qt as int <= 9,
                        0 <= dd as int,
                        pow10((m + 1) as nat) as int == 10 * pow10(m as nat) as int,
                ;
            }
            let ghost q_prev = q@;
            q.insert(0, qt);
            proof {
                lemma_val_insert0(q_prev, qt);
            }
            let ghost rd_before = rd@;
            difference(&mut rd, &dq.digits, k, m);
            proof {
                let pk = pow10(k as nat) as int;
                assert(pow10((k + 1) as nat) == 10 * pow10(k as nat));
                assert(val(rd@) as int + pk * (dd as int) * (val(q@) as int) == xs as int)
                    by (nonlinear_arith)
                    requires
                        val(rd@) as int == val(rd_before) as int - pk * (dd as int * (
                        qt as int)),
                        val(q@) as int == qt as int + 10 * (val(q_prev) as int),
                        qt as int == q_true as int,
                        val(rd_before) as int + (10 * pk) * (dd as int) * (val(
                            q_prev,
                        ) as int) == xs as int,
                ;
                assert((val(rd@) as int) < pk * (dd as int)) by (nonlinear_arith)
                    requires
                        val(rd@) as int == val(rd_before) as int - pk * (dd as int * (
                        q_true as int)),
                        val(rd_before) as int == pk * (w as int) + val(rd_before) as int % pk,
                        0 <= val(rd_before) as int % pk < pk,
                        w as int == dd as int * (q_true as int) + w as int % (dd as int),
                        0 <= w as int % (dd as int) < dd as int,
                        pk >= 1,
                ;
            }
        }
        let ghost rdv = val(rd@) as int;
        let ghost vq = val(q@) as int;
        let r_full = NonSmallInt::from_digits(rd);
        let pair = r_full.div_u32(f as u32);
        match pair {
            Some(p) => {
                let rem = p.0;
                proof {
                    assert(pow10(0) == 1);
                    let t = x_val as int - y_val as int * vq;
                    assert(rdv == f as int * t) by (nonlinear_arith)
                        requires
                            rdv + 1 * (dd as int) * vq == xs as int,
                            xs as int == x_val as int * (f as int),
                            dd as int == y_val as int * (f as int),
                            t == x_val as int - y_val as int * vq,
                    ;
                    assert(0 <= t && t < y_val as int) by (nonlinear_arith)
                        requires
                            rdv == f as int * t,
                            0 <= rdv,
                            rdv < 1 * (dd as int),
                            dd as int == y_val as int * (f as int),
                            f as int >= 1,
                            y_val as int >= 1,
                    ;
                    lemma_fundamental_div_mod_converse(x_val as int, y_val as int, vq, t);
                    lemma_fundamental_div_mod_converse(rdv, f as int, t, 0);
                }
                Some((NonSmallInt::from_digits(q), rem))
            },
            None => {
                proof {
                    assert(false);
                }
                unreached()
            },
        }
    }
}

} // verus!
