//! The number type itself: construction from a native integer, zero test,
//! significant length, structural shifting, and the double-ended zero-padded
//! digit window.

use crate::model::{
    digits_ok, lemma_pow10_pos, lemma_sig_len_is_dec_len, lemma_sig_len_unique, lemma_val_digit,
    lemma_val_push, lemma_val_skip_take, lemma_val_zero, dec_len, pow10, val, wd,
};
use vstd::prelude::*;

verus! {

/// Little-endian arbitrarily-sized unsigned integer.
#[derive(Eq, Debug)]
pub struct NonSmallInt {
    pub(crate) digits: Vec<u8>,
}

impl View for NonSmallInt {
    type V = Seq<u8>;

    closed spec fn view(&self) -> Seq<u8> {
        self.digits@
    }
}

/// The view of a number is the view of its digit vector.
pub(crate) broadcast proof fn lemma_view(v: &NonSmallInt)
    ensures
        (#[trigger] v@) == v.digits@,
{
}

impl NonSmallInt {
    /// Every stored digit lies in [0, 10).
    #[verifier::type_invariant]
    pub open spec fn inv(&self) -> bool {
        digits_ok(self@)
    }

    /// The number this value denotes.
    pub open spec fn value(&self) -> nat {
        val(self@)
    }

    pub(crate) fn from_digits(digits: Vec<u8>) -> (res: NonSmallInt)
        requires
            digits_ok(digits@),
        ensures
            res@ == digits@,
    {
        NonSmallInt { digits }
    }

    pub(crate) fn into_digits(self) -> (d: Vec<u8>)
        ensures
            d@ == self@,
            digits_ok(d@),
    {
        proof {
            use_type_invariant(&self);
        }
        let NonSmallInt { digits } = self;
        digits
    }

    /// Constructs from a u64.
    pub fn of(n: u64) -> (res: NonSmallInt)
        ensures
            res.value() == n as nat,
    {
        let mut digits: Vec<u8> = Vec::new();
        let mut x: u64 = n;
        let d0: u8 = (x % 10) as u8;
        digits.push(d0);
        proof {
            assert(digits@.len() == 1);
            assert(digits@[0] == d0);
            assert(digits@.skip(1) =~= Seq::<u8>::empty());
            assert(val(Seq::<u8>::empty()) == 0);
            assert(val(digits@) == d0 as nat + 10 * val(digits@.skip(1)));
            assert(pow10(0) == 1);
            assert(pow10(1) == 10);
        }
        x = x / 10;
        while x > 0
            invariant
                digits_ok(digits@),
                digits@.len() >= 1,
                val(digits@) + (x as nat) * pow10(digits@.len()) == n as nat,
            decreases x,
        {
            let ghost prev = digits@;
            let ghost x0 = x as nat;
            let d: u8 = (x % 10) as u8;
            digits.push(d);
            x = x / 10;
            proof {
                lemma_val_push(prev, d);
                let p = pow10(prev.len());
                assert(pow10(digits@.len()) == 10 * p);
                assert((d as int) * p + (x as int) * (10 * p) == (x0 as int) * p)
                    by (nonlinear_arith)
                    requires
                        x0 == 10 * (x as nat) + (d as nat),
                ;
            }
        }
        NonSmallInt { digits }
    }

    /// True iff the value is zero: no digits, or all digits zero.
    pub fn is_zero(&self) -> (res: bool)
        ensures
            res == (self.value() == 0),
    {
        proof {
            use_type_invariant(&*self);
        }
        let mut i: usize = 0;
        let n = self.digits.len();
        while i < n
            invariant
                i <= n,
                n == self@.len(),
                digits_ok(self@),
                forall|j: int| 0 <= j < i ==> self@[j] == 0,
            decreases n - i,
        {
            if self.digits[i] != 0 {
                proof {
                    lemma_val_digit(self@, i as int);
                    lemma_pow10_pos(i as nat);
                    assert(val(self@) != 0) by {
                        if val(self@) == 0 {
                            assert(0int / (pow10(i as nat) as int) == 0);
                            assert(wd(self@, i as int) as nat == (val(self@) / pow10(i as nat))
                                % 10);
                        }
                    }
                }
                return false;
            }
            i += 1;
        }
        proof {
            lemma_val_zero(self@);
        }
        true
    }

    /// Number of significant digits in the given radix; only ten is supported.
    pub fn length(&self, radix: u64) -> (res: usize)
        requires
            radix == 10,
        ensures
            res == dec_len(self.value()),
    {
        let _base: u64 = radix;
        proof {
            use_type_invariant(&*self);
        }
        let mut i: usize = self.digits.len();
        while i > 0 && self.digits[i - 1] == 0
            invariant
                i <= self@.len(),
                digits_ok(self@),
                forall|j: int| i <= j < self@.len() ==> self@[j] == 0,
            decreases i,
        {
            i -= 1;
        }
        proof {
            lemma_sig_len_unique(self@, i as int);
            lemma_sig_len_is_dec_len(self@);
        }
        i
    }

    /// Multiplies by ten to the power n: prepends n zero digits.
    pub fn times_radix(&self, n: usize) -> (res: NonSmallInt)
        ensures
            res.value() == self.value() * pow10(n as nat),
    {
        proof {
            use_type_invariant(&*self);
        }
        let mut out: Vec<u8> = Vec::new();
        let mut i: usize = 0;
        while i < n
            invariant
                i <= n,
                out@.len() == i,
                forall|j: int| 0 <= j < i ==> out@[j] == 0,
            decreases n - i,
        {
            out.push(0);
            i += 1;
        }
        let mut j: usize = 0;
        while j < self.digits.len()
            invariant
                j <= self@.len(),
                out@.len() == n + j,
                digits_ok(self@),
                forall|p: int| 0 <= p < n ==> out@[p] == 0,
                forall|q: int| 0 <= q < j ==> out@[n + q] == self@[q],
            decreases self@.len() - j,
        {
            out.push(self.digits[j]);
            j += 1;
        }
        proof {
            assert forall|t: int| 0 <= t < out@.len() implies out@[t] < 10 by {
                if t >= n {
                    assert(out@[t] == self@[t - n]);
                }
            }
            lemma_val_skip_take(out@, n as int);
            assert(out@.skip(n as int) =~= self@);
            lemma_val_zero(out@.take(n as int));
            assert(pow10(n as nat) * val(self@) == val(self@) * pow10(n as nat))
                by (nonlinear_arith);
        }
        NonSmallInt { digits: out }
    }

    /// A double-ended window of the given logical length over the digits,
    /// synthesizing zero past the stored range.
    pub fn iter_digits(&self, length: usize) -> (it: Digits<'_>)
        requires
            length <= isize::MAX,
        ensures
            it.inv(),
            it.src() == self@,
            it.front() == 0,
            it.back() == length - 1,
            it.window_empty() == (length == 0),
    {
        Digits { nsi: self, next_ix: 0, next_back_ix: (length as isize) - 1, empty: length == 0 }
    }
}

impl Clone for NonSmallInt {
    fn clone(&self) -> (res: Self)
        ensures
            res@ == self@,
    {
        proof {
            use_type_invariant(&*self);
        }
        let mut digits: Vec<u8> = Vec::new();
        let mut i: usize = 0;
        while i < self.digits.len()
            invariant
                i <= self@.len(),
                digits@.len() == i,
                digits_ok(self@),
                forall|j: int| 0 <= j < i ==> digits@[j] == self@[j],
            decreases self@.len() - i,
        {
            digits.push(self.digits[i]);
            i += 1;
        }
        proof {
            assert(digits@ =~= self@);
        }
        NonSmallInt { digits }
    }
}

/// Reads a stored digit, or zero past the stored length.
pub(crate) fn lookup(v: &Vec<u8>, ix: usize) -> (r: u8)
    ensures
        r == wd(v@, ix as int),
{
    if ix < v.len() {
        v[ix]
    } else {
        0
    }
}

/// A transient, zero-padded, double-ended view of a value's digits with
/// independent front and back cursors that stop once they cross.
pub struct Digits<'a> {
    nsi: &'a NonSmallInt,
    next_ix: usize,
    next_back_ix: isize,
    empty: bool,
}

impl<'a> Digits<'a> {
    /// The digit sequence under the window.
    pub closed spec fn src(&self) -> Seq<u8> {
        self.nsi@
    }

    /// Position of the front cursor.
    pub closed spec fn front(&self) -> int {
        self.next_ix as int
    }

    /// Position of the back cursor.
    pub closed spec fn back(&self) -> int {
        self.next_back_ix as int
    }

    /// Whether the window was created with length zero.
    pub closed spec fn window_empty(&self) -> bool {
        self.empty
    }

    /// Cursor bounds that keep the index arithmetic in range.
    pub closed spec fn inv(&self) -> bool {
        self.next_ix <= isize::MAX && self.next_back_ix < isize::MAX
    }

    /// Yields the digit under the front cursor and advances it, or nothing
    /// once the cursors have crossed.
    pub fn next(&mut self) -> (r: Option<u8>)
        requires
            old(self).inv(),
        ensures
            final(self).inv(),
            final(self).src() == old(self).src(),
            final(self).back() == old(self).back(),
            final(self).window_empty() == old(self).window_empty(),
            (!old(self).window_empty() && old(self).front() <= old(self).back()) ==> (r == Some(
                wd(old(self).src(), old(self).front()),
            ) && final(self).front() == old(self).front() + 1),
            (old(self).window_empty() || old(self).front() > old(self).back()) ==> (r
                == Option::<u8>::None && final(self).front() == old(self).front()),
    {
        if !self.empty && (self.next_ix as isize) <= self.next_back_ix {
            let out: u8 = if self.next_ix < self.nsi.digits.len() {
                self.nsi.digits[self.next_ix]
            } else {
                0
            };
            self.next_ix = self.next_ix + 1;
            Some(out)
        } else {
            None
        }
    }

    /// Yields the digit under the back cursor and retreats it, or nothing
    /// once the cursors have crossed.
    pub fn next_back(&mut self) -> (r: Option<u8>)
        requires
            old(self).inv(),
        ensures
            final(self).inv(),
            final(self).src() == old(self).src(),
            final(self).front() == old(self).front(),
            final(self).window_empty() == old(self).window_empty(),
            (!old(self).window_empty() && old(self).back() >= old(self).front()) ==> (r == Some(
                wd(old(self).src(), old(self).back()),
            ) && final(self).back() == old(self).back() - 1),
            (old(self).window_empty() || old(self).back() < old(self).front()) ==> (r
                == Option::<u8>::None && final(self).back() == old(self).back()),
    {
        if !self.empty && self.next_back_ix >= (self.next_ix as isize) {
            let bix = self.next_back_ix as usize;
            let out: u8 = if bix < self.nsi.digits.len() {
                self.nsi.digits[bix]
            } else {
                0
            };
            self.next_back_ix = self.next_back_ix - 1;
            Some(out)
        } else {
            None
        }
    }
}

} // verus!
