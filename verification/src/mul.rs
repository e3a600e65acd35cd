//! Multiplication: scalar multiply-with-carry, full multiplication by
//! repeated scalar multiplies with positional shifting, and exponentiation
//! by repeated multiplication.

use crate::model::{
    digits_ok, lemma_div_lt, lemma_pow10_ten, lemma_val_push, pow10, val,
};
use crate::value::NonSmallInt;
use vstd::prelude::*;

verus! {

broadcast use crate::value::lemma_view;

/// b raised to the power e.
pub open spec fn pow_nat(b: nat, e: nat) -> nat
    decreases e,
{
    if e == 0 {
        1
    } else {
        b * pow_nat(b, (e - 1) as nat)
    }
}

impl NonSmallInt {
    /// Scalar multiplication: multiply-with-carry over every stored digit.
    pub fn mul_u32(&self, rhs: u32) -> (res: NonSmallInt)
        ensures
            res.value() == self.value() * rhs as nat,
            res@.len() <= self@.len() + 10,
    {
        proof {
            use_type_invariant(&*self);
        }
        let mut out: Vec<u8> = Vec::new();
        let mut carry: u64 = 0;
        let mut i: usize = 0;
        proof {
            assert(out@ =~= Seq::<u8>::empty());
            assert(self@.take(0) =~= Seq::<u8>::empty());
            assert(val(Seq::<u8>::empty()) == 0);
            assert(pow10(0) == 1);
        }
        while i < self.digits.len()
            invariant
                i <= self@.len(),
                out@.len() == i,
                digits_ok(out@),
                digits_ok(self@),
                carry <= rhs as u64,
                val(out@) + (carry as nat) * pow10(i as nat) == val(self@.take(i as int)) * (
                rhs as nat),
            decreases self@.len() - i,
        {
            let d = self.digits[i];
            let ghost out0 = out@;
            let ghost c0 = carry as int;
            proof {
                assert((rhs as int) * (d as int) + carry as int <= 42949672950)
                    by (nonlinear_arith)
                    requires
                        0 <= d as int <= 9,
                        0 <= carry as int <= rhs as int,
                        rhs as int <= 4294967295,
                ;
            }
            let temp: u64 = (rhs as u64) * (d as u64) + carry;
            out.push((temp % 10) as u8);
            carry = temp / 10;
            proof {
                lemma_val_push(out0, (temp % 10) as u8);
                assert(self@.take((i + 1) as int) =~= self@.take(i as int).push(d));
                lemma_val_push(self@.take(i as int), d);
                let p = pow10(i as nat) as int;
                assert(pow10((i + 1) as nat) == 10 * pow10(i as nat));
                assert(temp as int / 10 <= rhs as int && ((temp % 10) as int) * p + ((temp
                    / 10) as int) * (10 * p) == c0 * p + (d as int) * (rhs as int) * p)
                    by (nonlinear_arith)
                    requires
                        temp as int == (rhs as int) * (d as int) + c0,
                        temp as int == 10 * (temp as int / 10) + temp as int % 10,
                        0 <= temp as int % 10,
                        0 <= d as int <= 9,
                        0 <= c0 <= rhs as int,
                ;
                assert((val(self@.take(i as int)) as int + (d as int) * p) * (rhs as int) == val(
                    self@.take(i as int),
                ) as int * (rhs as int) + (d as int) * (rhs as int) * p) by (nonlinear_arith);
            }
            i += 1;
        }
        proof {
            assert(self@.take(self@.len() as int) =~= self@);
        }
        let ghost base_len = out@.len();
        proof {
            lemma_pow10_ten();
        }
        while carry != 0
            invariant
                digits_ok(out@),
                base_len <= out@.len() <= base_len + 10,
                carry < pow10((base_len + 10 - out@.len()) as nat),
                val(out@) + (carry as nat) * pow10(out@.len()) == self.value() * (rhs as nat),
            decreases carry,
        {
            let ghost out0 = out@;
            let ghost c0 = carry as int;
            let ghost k = (base_len + 10 - out@.len()) as nat;
            let dg: u8 = (carry % 10) as u8;
            out.push(dg);
            carry = carry / 10;
            proof {
                lemma_val_push(out0, dg);
                let p = pow10(out0.len()) as int;
                assert(pow10((out0.len() + 1) as nat) == 10 * pow10(out0.len()));
                assert(((c0 % 10) as int) * p + (c0 / 10) * (10 * p) == c0 * p)
                    by (nonlinear_arith)
                    requires
                        c0 == 10 * (c0 / 10) + c0 % 10,
                ;
                assert(k >= 1);
                assert(pow10(k) == 10 * pow10((k - 1) as nat));
                lemma_div_lt(c0, 10, pow10((k - 1) as nat) as int);
            }
        }
        NonSmallInt { digits: out }
    }

    /// Full multiplication: for each digit of the right operand, a scalar
    /// multiple of the left operand is shifted into place and accumulated.
    pub fn mul(&self, rhs: &NonSmallInt) -> (res: NonSmallInt)
        ensures
            res.value() == self.value() * rhs.value(),
    {
        proof {
            use_type_invariant(&*self);
            use_type_invariant(&*rhs);
        }
        let mut out = NonSmallInt::of(0);
        let mut ix: usize = 0;
        proof {
            assert(rhs@.take(0) =~= Seq::<u8>::empty());
            assert(val(Seq::<u8>::empty()) == 0);
        }
        while ix < rhs.digits.len()
            invariant
                ix <= rhs@.len(),
                digits_ok(rhs@),
                out.value() == self.value() * val(rhs@.take(ix as int)),
            decreases rhs@.len() - ix,
        {
            let d = rhs.digits[ix];
            let part = self.mul_u32(d as u32);
            let shifted = part.times_radix(ix);
            out = out.add(&shifted);
            proof {
                assert(rhs@.take((ix + 1) as int) =~= rhs@.take(ix as int).push(d));
                lemma_val_push(rhs@.take(ix as int), d);
                let p = pow10(ix as nat) as int;
                let va = self.value() as int;
                let t = val(rhs@.take(ix as int)) as int;
                assert(va * t + (va * (d as int)) * p == va * (t + (d as int) * p))
                    by (nonlinear_arith);
            }
            ix += 1;
        }
        proof {
            assert(rhs@.take(rhs@.len() as int) =~= rhs@);
        }
        out
    }

    /// Exponentiation by repeated multiplication; the zeroth power is one.
    pub fn pow(&self, n: u32) -> (res: NonSmallInt)
        ensures
            res.value() == pow_nat(self.value(), n as nat),
        decreases n,
    {
        if n == 0 {
            NonSmallInt::of(1)
        } else {
            let p = self.pow(n - 1);
            self.mul(&p)
        }
    }
}

} // verus!
