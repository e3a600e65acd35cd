//! Equality and ordering: equality ignores most-significant zero digits,
//! ordering compares significant lengths first and then digits from the
//! most-significant end.

use crate::model::{
    digits_ok, lemma_pow10_le, lemma_sig_len_is_dec_len, lemma_sig_len_le, lemma_sig_len_zeros,
    lemma_val_digit, lemma_val_ge_pow10_sig, lemma_val_lex, lemma_val_lt_pow10_sig,
    lemma_win_covers, sig_len, val, win,
};
use crate::value::{lookup, NonSmallInt};
use core::cmp::Ordering;
use vstd::prelude::*;

verus! {

broadcast use crate::value::lemma_view;

impl NonSmallInt {
    /// True iff this value is numerically below the other.
    pub fn lt(&self, rhs: &NonSmallInt) -> (r: bool)
        ensures
            r == (self.value() < rhs.value()),
    {
        proof {
            use_type_invariant(&*self);
            use_type_invariant(&*rhs);
            lemma_sig_len_is_dec_len(self@);
            lemma_sig_len_is_dec_len(rhs@);
            lemma_sig_len_le(self@);
            lemma_sig_len_le(rhs@);
        }
        if self.length(10) < rhs.length(10) {
            proof {
                lemma_val_lt_pow10_sig(self@);
                lemma_val_ge_pow10_sig(rhs@);
                lemma_pow10_le(sig_len(self@), (sig_len(rhs@) - 1) as nat);
            }
            true
        } else {
            let a = self.digits.len();
            let b = rhs.digits.len();
            let max_length: usize = if a >= b {
                a
            } else {
                b
            };
            let ghost u = win(self@, 0, max_length as int);
            let ghost v = win(rhs@, 0, max_length as int);
            proof {
                lemma_win_covers(self@, max_length as int);
                lemma_win_covers(rhs@, max_length as int);
                assert(digits_ok(u));
                assert(digits_ok(v));
            }
            let mut i: usize = max_length;
            while i > 0
                invariant
                    i <= max_length,
                    u == win(self@, 0, max_length as int),
                    v == win(rhs@, 0, max_length as int),
                    digits_ok(u),
                    digits_ok(v),
                    u.len() == max_length,
                    v.len() == max_length,
                    val(u) == self.value(),
                    val(v) == rhs.value(),
                    forall|j: int| i <= j < max_length ==> u[j] == v[j],
                decreases i,
            {
                let ld = lookup(&self.digits, i - 1);
                let rd = lookup(&rhs.digits, i - 1);
                if ld != rd {
                    proof {
                        assert(u[i - 1] == ld);
                        assert(v[i - 1] == rd);
                        if ld < rd {
                            lemma_val_lex(u, v, i - 1);
                        } else {
                            lemma_val_lex(v, u, i - 1);
                        }
                    }
                    return ld < rd;
                }
                i -= 1;
            }
            proof {
                assert(u =~= v);
            }
            false
        }
    }

    /// Total order by numeric value.
    pub fn cmp(&self, other: &NonSmallInt) -> (r: Ordering)
        ensures
            r == (if self.value() < other.value() {
                Ordering::Less
            } else if self.value() == other.value() {
                Ordering::Equal
            } else {
                Ordering::Greater
            }),
    {
        if self.lt(other) {
            Ordering::Less
        } else if self.eq(other) {
            Ordering::Equal
        } else {
            Ordering::Greater
        }
    }
}

impl PartialEq for NonSmallInt {
    /// True iff the significant digits agree, i.e. the values are equal.
    fn eq(&self, other: &NonSmallInt) -> (r: bool) {
        proof {
            use_type_invariant(&*self);
            use_type_invariant(&*other);
            lemma_sig_len_is_dec_len(self@);
            lemma_sig_len_is_dec_len(other@);
            lemma_sig_len_le(self@);
            lemma_sig_len_le(other@);
        }
        let sl = self.length(10);
        let ol = other.length(10);
        if sl != ol {
            false
        } else {
            let mut i: usize = 0;
            while i < sl
                invariant
                    i <= sl,
                    sl == sig_len(self@),
                    sl == sig_len(other@),
                    sl <= self@.len(),
                    sl <= other@.len(),
                    digits_ok(self@),
                    digits_ok(other@),
                    forall|j: int| 0 <= j < i ==> self@[j] == other@[j],
                decreases sl - i,
            {
                if self.digits[i] != other.digits[i] {
                    proof {
                        lemma_val_digit(self@, i as int);
                        lemma_val_digit(other@, i as int);
                    }
                    return false;
                }
                i += 1;
            }
            proof {
                let n = if self@.len() >= other@.len() {
                    self@.len() as int
                } else {
                    other@.len() as int
                };
                lemma_sig_len_zeros(self@);
                lemma_sig_len_zeros(other@);
                lemma_win_covers(self@, n);
                lemma_win_covers(other@, n);
                assert(win(self@, 0, n) =~= win(other@, 0, n));
            }
            true
        }
    }
}

impl vstd::std_specs::cmp::PartialEqSpecImpl for NonSmallInt {
    open spec fn obeys_eq_spec() -> bool {
        true
    }

    open spec fn eq_spec(&self, other: &NonSmallInt) -> bool {
        self.value() == other.value()
    }
}

impl PartialOrd for NonSmallInt {
    fn partial_cmp(&self, other: &NonSmallInt) -> (r: Option<Ordering>) {
        Some(self.cmp(other))
    }
}

impl vstd::std_specs::cmp::PartialOrdSpecImpl for NonSmallInt {
    open spec fn obeys_partial_cmp_spec() -> bool {
        true
    }

    open spec fn partial_cmp_spec(&self, other: &NonSmallInt) -> Option<Ordering> {
        if self.value() < other.value() {
            Some(Ordering::Less)
        } else if self.value() == other.value() {
            Some(Ordering::Equal)
        } else {
            Some(Ordering::Greater)
        }
    }
}

} // verus!
