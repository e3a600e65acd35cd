//! Elementary arithmetic: addition with carry propagation, checked
//! subtraction with borrow propagation, the unchecked subtraction entry
//! point, and summation over a sequence of values.

use crate::model::{
    digits_ok, lemma_sig_len_is_dec_len, lemma_sig_len_le, lemma_val_bound, lemma_val_push,
    lemma_win_covers, lemma_win_step, pow10, val, win,
};
use crate::value::{lookup, NonSmallInt};
use vstd::prelude::*;

verus! {

broadcast use crate::value::lemma_view;

/// The sum of the values of a sequence of numbers.
pub open spec fn sum_vals(s: Seq<NonSmallInt>) -> nat
    decreases s.len(),
{
    if s.len() == 0 {
        0
    } else {
        sum_vals(s.drop_last()) + s.last().value()
    }
}

impl NonSmallInt {
    /// Addition; total, the result is one digit longer at most.
    pub fn add(&self, rhs: &NonSmallInt) -> (res: NonSmallInt)
        ensures
            res.value() == self.value() + rhs.value(),
    {
        proof {
            use_type_invariant(&*self);
            use_type_invariant(&*rhs);
            lemma_sig_len_is_dec_len(self@);
            lemma_sig_len_is_dec_len(rhs@);
        }
        let sl = self.length(10);
        let rl = rhs.length(10);
        let max_length: usize = if sl >= rl {
            sl
        } else {
            rl
        };
        proof {
            lemma_win_covers(self@, max_length as int);
            lemma_win_covers(rhs@, max_length as int);
        }
        let mut out: Vec<u8> = Vec::new();
        let mut carry: u32 = 0;
        let mut i: usize = 0;
        while i < max_length
            invariant
                i <= max_length,
                out@.len() == i,
                digits_ok(out@),
                digits_ok(self@),
                digits_ok(rhs@),
                carry <= 1,
                val(out@) + (carry as nat) * pow10(i as nat) == val(win(self@, 0, i as int)) + val(
                    win(rhs@, 0, i as int),
                ),
            decreases max_length - i,
        {
            let ld = lookup(&self.digits, i);
            let rd = lookup(&rhs.digits, i);
            let ghost out0 = out@;
            let ghost c0 = carry as int;
            let temp: u32 = ld as u32 + rd as u32 + carry;
            out.push((temp % 10) as u8);
            carry = temp / 10;
            proof {
                lemma_val_push(out0, (temp % 10) as u8);
                lemma_win_step(self@, 0, i as int);
                lemma_win_step(rhs@, 0, i as int);
                let p = pow10(i as nat) as int;
                assert(pow10((i + 1) as nat) == 10 * pow10(i as nat));
                assert(((temp % 10) as int) * p + ((temp / 10) as int) * (10 * p) == (ld as int)
                    * p + (rd as int) * p + c0 * p) by (nonlinear_arith)
                    requires
                        temp as int == ld as int + rd as int + c0,
                        temp as int == 10 * (temp as int / 10) + temp as int % 10,
                ;
            }
            i += 1;
        }
        if carry != 0 {
            let ghost out0 = out@;
            out.push((carry % 10) as u8);
            proof {
                lemma_val_push(out0, (carry % 10) as u8);
            }
        }
        NonSmallInt { digits: out }
    }

    /// Checked subtraction: the difference, or nothing on underflow.
    pub fn safe_sub(&self, rhs: &NonSmallInt) -> (res: Option<NonSmallInt>)
        ensures
            match res {
                Some(d) => self.value() >= rhs.value() && d.value() == self.value()
                    - rhs.value(),
                None => self.value() < rhs.value(),
            },
    {
        proof {
            use_type_invariant(&*self);
            use_type_invariant(&*rhs);
            lemma_sig_len_le(self@);
            lemma_sig_len_le(rhs@);
        }
        let a = self.digits.len();
        let b = rhs.digits.len();
        let max_length: usize = if a >= b {
            a
        } else {
            b
        };
        proof {
            lemma_win_covers(self@, max_length as int);
            lemma_win_covers(rhs@, max_length as int);
        }
        let mut out: Vec<u8> = Vec::new();
        let mut borrow: u32 = 0;
        let mut i: usize = 0;
        while i < max_length
            invariant
                i <= max_length,
                out@.len() == i,
                digits_ok(out@),
                digits_ok(self@),
                digits_ok(rhs@),
                borrow <= 1,
                val(out@) + val(win(rhs@, 0, i as int)) == val(win(self@, 0, i as int)) + (
                borrow as nat) * pow10(i as nat),
            decreases max_length - i,
        {
            let ld = lookup(&self.digits, i);
            let rd = lookup(&rhs.digits, i);
            let ghost out0 = out@;
            let ghost b0 = borrow as int;
            let diff: u32 = 10 + ld as u32 - rd as u32 - borrow;
            out.push((diff % 10) as u8);
            borrow = 1 - diff / 10;
            proof {
                lemma_val_push(out0, (diff % 10) as u8);
                lemma_win_step(self@, 0, i as int);
                lemma_win_step(rhs@, 0, i as int);
                let p = pow10(i as nat) as int;
                assert(pow10((i + 1) as nat) == 10 * pow10(i as nat));
                assert(((diff % 10) as int) * p + (rd as int) * p + b0 * p == (ld as int) * p + (1
                    - (diff as int / 10)) * (10 * p)) by (nonlinear_arith)
                    requires
                        diff as int == 10 + ld as int - rd as int - b0,
                        diff as int == 10 * (diff as int / 10) + diff as int % 10,
                ;
            }
            i += 1;
        }
        if borrow == 0 {
            Some(NonSmallInt { digits: out })
        } else {
            proof {
                lemma_val_bound(out@);
            }
            None
        }
    }

    /// Subtraction; the minuend must not be smaller than the subtrahend.
    pub fn sub(&self, rhs: &NonSmallInt) -> (res: NonSmallInt)
        requires
            rhs.value() <= self.value(),
        ensures
            res.value() == self.value() - rhs.value(),
    {
        match self.safe_sub(rhs) {
            Some(r) => r,
            None => unreached(),
        }
    }

    /// Sums a sequence of values; the empty sequence sums to zero.
    pub fn sum(xs: &Vec<NonSmallInt>) -> (res: NonSmallInt)
        ensures
            res.value() == sum_vals(xs@),
    {
        let mut acc = NonSmallInt::of(0);
        let mut i: usize = 0;
        while i < xs.len()
            invariant
                i <= xs@.len(),
                acc.value() == sum_vals(xs@.take(i as int)),
            decreases xs@.len() - i,
        {
            acc = acc.add(&xs[i]);
            proof {
                assert(xs@.take((i + 1) as int).drop_last() =~= xs@.take(i as int));
                assert(xs@.take((i + 1) as int).last() == xs@[i as int]);
            }
            i += 1;
        }
        proof {
            assert(xs@.take(xs@.len() as int) =~= xs@);
        }
        acc
    }
}

} // verus!
