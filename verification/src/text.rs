//! Decimal text: parsing a whitespace-trimmed digit string into a value, and
//! rendering a value as its significant digits, most-significant first.

use crate::model::{
    digits_ok, lemma_sig_len_is_dec_len, lemma_sig_len_le, lemma_sig_len_zeros, lemma_val_digit,
    lemma_val_zero, pow10, sig_len, val,
};
use crate::value::NonSmallInt;
use vstd::arithmetic::div_mod::lemma_fundamental_div_mod_converse;
use vstd::prelude::*;

verus! {

broadcast use crate::value::lemma_view;

/// The whitespace characters that trimming removes.
pub open spec fn is_space(c: char) -> bool {
    let u = c as u32;
    u == 32 || (9 <= u && u <= 13) || u == 0x85 || u == 0xa0 || u == 0x1680 || (0x2000 <= u && u
        <= 0x200a) || u == 0x2028 || u == 0x2029 || u == 0x202f || u == 0x205f || u == 0x3000
}

/// A decimal digit character.
pub open spec fn is_digit_char(c: char) -> bool {
    48 <= c as u32 && c as u32 <= 57
}

/// The numeric value of a decimal digit character.
pub open spec fn char_val(c: char) -> nat {
    (c as u32 - 48) as nat
}

/// Every character of the sequence is a decimal digit.
pub open spec fn all_digits(s: Seq<char>) -> bool {
    forall|i: int| 0 <= i < s.len() ==> is_digit_char(s[i])
}

/// Number of leading whitespace characters.
pub open spec fn ws_prefix(s: Seq<char>) -> int
    decreases s.len(),
{
    if s.len() == 0 || !is_space(s[0]) {
        0
    } else {
        1 + ws_prefix(s.skip(1))
    }
}

/// Number of trailing whitespace characters.
pub open spec fn ws_suffix(s: Seq<char>) -> int
    decreases s.len(),
{
    if s.len() == 0 || !is_space(s.last()) {
        0
    } else {
        1 + ws_suffix(s.drop_last())
    }
}

/// The input with leading, then trailing, whitespace removed.
pub open spec fn trimmed(s: Seq<char>) -> Seq<char> {
    let rest = s.skip(ws_prefix(s));
    rest.take(rest.len() - ws_suffix(rest))
}

/// Value of a digit string read most-significant first.
pub open spec fn str_val(s: Seq<char>) -> nat
    decreases s.len(),
{
    if s.len() == 0 {
        0
    } else {
        10 * str_val(s.drop_last()) + char_val(s.last())
    }
}

/// The little-endian digit sequence of a digit string.
pub open spec fn rev_digits(s: Seq<char>) -> Seq<u8> {
    Seq::new(s.len(), |i: int| char_val(s[s.len() - 1 - i]) as u8)
}

/// The character of a single decimal digit.
pub open spec fn digit_char(d: nat) -> char {
    if d == 0 {
        '0'
    } else if d == 1 {
        '1'
    } else if d == 2 {
        '2'
    } else if d == 3 {
        '3'
    } else if d == 4 {
        '4'
    } else if d == 5 {
        '5'
    } else if d == 6 {
        '6'
    } else if d == 7 {
        '7'
    } else if d == 8 {
        '8'
    } else {
        '9'
    }
}

/// The decimal digits of a number, most-significant first; empty for zero.
pub open spec fn dec_chars_rec(n: nat) -> Seq<char>
    decreases n,
{
    if n == 0 {
        Seq::empty()
    } else {
        dec_chars_rec(n / 10).push(digit_char(n % 10))
    }
}

/// The decimal rendering of a number; zero renders as the single digit zero.
pub open spec fn dec_chars(n: nat) -> Seq<char> {
    if n == 0 {
        seq!['0']
    } else {
        dec_chars_rec(n)
    }
}

/// A count of leading spaces followed by a non-space pins the prefix length.
proof fn lemma_ws_prefix_unique(s: Seq<char>, a: int)
    requires
        0 <= a <= s.len(),
        forall|i: int| 0 <= i < a ==> is_space(s[i]),
        a == s.len() || !is_space(s[a]),
    ensures
        ws_prefix(s) == a,
    decreases s.len(),
{
    if s.len() == 0 {
    } else if !is_space(s[0]) {
        assert(a == 0);
    } else {
        assert(a >= 1);
        assert(forall|i: int| 0 <= i < a - 1 ==> s.skip(1)[i] == s[i + 1] && is_space(s[i + 1]));
        if a < s.len() {
            assert(s.skip(1)[a - 1] == s[a]);
        }
        lemma_ws_prefix_unique(s.skip(1), a - 1);
    }
}

/// A count of trailing spaces preceded by a non-space pins the suffix length.
proof fn lemma_ws_suffix_unique(s: Seq<char>, b: int)
    requires
        0 <= b <= s.len(),
        forall|i: int| s.len() - b <= i < s.len() ==> is_space(s[i]),
        b == s.len() || !is_space(s[s.len() - b - 1]),
    ensures
        ws_suffix(s) == b,
    decreases s.len(),
{
    if s.len() == 0 {
    } else if !is_space(s.last()) {
        assert(b == 0);
    } else {
        assert(b >= 1);
        assert(forall|i: int|
            s.drop_last().len() - (b - 1) <= i < s.drop_last().len() ==> s.drop_last()[i] == s[i]
                && is_space(s[i]));
        if b < s.len() {
            assert(s.drop_last()[s.len() - b - 1] == s[s.len() - b - 1]);
        }
        lemma_ws_suffix_unique(s.drop_last(), b - 1);
    }
}

/// The value of a digit string equals the value of its reversed digits.
pub proof fn lemma_str_val_digits(t: Seq<char>)
    requires
        all_digits(t),
    ensures
        val(rev_digits(t)) == str_val(t),
    decreases t.len(),
{
    if t.len() == 0 {
        assert(rev_digits(t) =~= Seq::<u8>::empty());
    } else {
        assert(rev_digits(t)[0] == char_val(t.last()) as u8);
        assert(rev_digits(t).skip(1) =~= rev_digits(t.drop_last()));
        lemma_str_val_digits(t.drop_last());
        assert(val(rev_digits(t)) == char_val(t.last()) + 10 * val(rev_digits(t.drop_last())));
    }
}

/// Rendered digits are digit characters and read back to the same number.
pub proof fn lemma_dec_chars_rec(n: nat)
    ensures
        all_digits(dec_chars_rec(n)),
        str_val(dec_chars_rec(n)) == n,
        dec_chars_rec(n).len() == crate::model::dec_len(n),
    decreases n,
{
    if n > 0 {
        lemma_dec_chars_rec(n / 10);
        let s = dec_chars_rec(n);
        assert(s.drop_last() =~= dec_chars_rec(n / 10));
        assert(s.last() == digit_char(n % 10));
        assert(is_digit_char(digit_char(n % 10)) && char_val(digit_char(n % 10)) == n % 10);
        assert(str_val(s) == 10 * (n / 10) + n % 10);
    }
}

impl NonSmallInt {
    /// Parses a decimal number: after trimming whitespace every character
    /// must be a digit, else there is no result; digits are stored
    /// least-significant first.
    pub fn parse(n: &str) -> (res: Option<NonSmallInt>)
        ensures
            match res {
                Some(v) => all_digits(trimmed(n@)) && v.value() == str_val(trimmed(n@)) && v@
                    == rev_digits(trimmed(n@)),
                None => !all_digits(trimmed(n@)),
            },
    {
        let len = n.unicode_len();
        let mut start: usize = 0;
        while start < len && is_space_char(n.get_char(start))
            invariant
                start <= len,
                len == n@.len(),
                forall|i: int| 0 <= i < start ==> is_space(n@[i]),
            decreases len - start,
        {
            start += 1;
        }
        let mut end: usize = len;
        while end > start && is_space_char(n.get_char(end - 1))
            invariant
                start <= end <= len,
                len == n@.len(),
                forall|j: int| end <= j < len ==> is_space(n@[j]),
            decreases end,
        {
            end -= 1;
        }
        proof {
            lemma_ws_prefix_unique(n@, start as int);
            let rest = n@.skip(start as int);
            assert(forall|i: int|
                rest.len() - (len - end) <= i < rest.len() ==> rest[i] == n@[i + start]
                    && is_space(n@[i + start]));
            if end > start {
                assert(rest[end - 1 - start] == n@[end - 1]);
            }
            lemma_ws_suffix_unique(rest, len - end);
            assert(trimmed(n@) =~= n@.subrange(start as int, end as int));
        }
        let ghost t = trimmed(n@);
        let mut digits: Vec<u8> = Vec::new();
        let mut ok: bool = true;
        let mut i: usize = end;
        while i > start
            invariant
                start <= i <= end <= n@.len(),
                t == n@.subrange(start as int, end as int),
                ok <==> (forall|j: int| i <= j < end ==> is_digit_char(n@[j])),
                ok ==> digits@ == Seq::new(
                    (end - i) as nat,
                    |p: int| char_val(n@[end - 1 - p]) as u8,
                ),
            decreases i,
        {
            i -= 1;
            let c = n.get_char(i);
            let u = c as u32;
            if 48 <= u && u <= 57 {
                let ghost d0 = digits@;
                digits.push((u - 48) as u8);
                proof {
                    if ok {
                        assert(digits@ =~= Seq::new(
                            (end - i) as nat,
                            |p: int| char_val(n@[end - 1 - p]) as u8,
                        ));
                    }
                }
            } else {
                ok = false;
            }
        }
        if ok {
            proof {
                assert(forall|p: int| 0 <= p < t.len() ==> t[p] == n@[start + p]);
                assert(all_digits(t));
                assert(digits@ =~= rev_digits(t));
                lemma_str_val_digits(t);
                assert(digits_ok(digits@));
            }
            Some(NonSmallInt::from_digits(digits))
        } else {
            proof {
                assert(t.len() == end - start);
                if all_digits(t) {
                    assert forall|j: int| i <= j < end implies is_digit_char(n@[j]) by {
                        assert(n@[j] == t[j - start]);
                    }
                    assert(false);
                }
            }
            None
        }
    }

    /// Renders the value in decimal: the significant digits, most-significant
    /// first, with zero rendered as the single digit zero.
    pub fn to_decimal_string(&self) -> (res: String)
        ensures
            res@ == dec_chars(self.value()),
    {
        proof {
            use_type_invariant(&*self);
            lemma_sig_len_is_dec_len(self@);
            lemma_sig_len_le(self@);
            lemma_sig_len_zeros(self@);
        }
        if self.is_zero() {
            let mut out = String::new();
            out.append(digit_str(0));
            proof {
                assert(out@ =~= seq![digit_char(0)]);
            }
            out
        } else {
            let mut out = String::new();
            let mut i: usize = self.length(10);
            proof {
                let l = sig_len(self@) as int;
                assert(forall|j: int|
                    0 <= j < self@.skip(l).len() ==> self@.skip(l)[j] == self@[l + j] && self@[l
                        + j] == 0);
                lemma_val_zero(self@.skip(l));
                assert(out@ =~= Seq::<char>::empty());
            }
            while i > 0
                invariant
                    i <= sig_len(self@),
                    sig_len(self@) <= self@.len(),
                    digits_ok(self@),
                    out@ == dec_chars_rec(val(self@.skip(i as int))),
                decreases i,
            {
                i -= 1;
                let ds = digit_str(self.digits[i]);
                out.append(ds);
                proof {
                    let tail = self@.skip(i as int);
                    assert(tail.skip(1) =~= self@.skip(i as int + 1));
                    assert(tail[0] == self@[i as int]);
                    let v = val(tail);
                    lemma_fundamental_div_mod_converse(
                        v as int,
                        10,
                        val(self@.skip(i as int + 1)) as int,
                        self@[i as int] as int,
                    );
                    assert(v != 0) by {
                        if v == 0 {
                            crate::model::lemma_sig_len_last(self@);
                            lemma_val_digit(tail, sig_len(self@) - 1 - i);
                            crate::model::lemma_pow10_pos((sig_len(self@) - 1 - i) as nat);
                            assert(0int / (pow10((sig_len(self@) - 1 - i) as nat) as int) == 0);
                            assert(tail[sig_len(self@) - 1 - i] == self@[sig_len(self@) - 1]);
                        }
                    }
                    assert(dec_chars_rec(v) == dec_chars_rec(v / 10).push(digit_char(v % 10)));
                    assert(out@ =~= dec_chars_rec(val(self@.skip(i as int + 1))).push(
                        digit_char(self@[i as int] as nat),
                    ));
                }
            }
            proof {
                assert(self@.skip(0) =~= self@);
            }
            out
        }
    }
}

/// Whether a character counts as whitespace for trimming.
fn is_space_char(c: char) -> (r: bool)
    ensures
        r == is_space(c),
{
    let u = c as u32;
    u == 32 || (9 <= u && u <= 13) || u == 0x85 || u == 0xa0 || u == 0x1680 || (0x2000 <= u && u
        <= 0x200a) || u == 0x2028 || u == 0x2029 || u == 0x202f || u == 0x205f || u == 0x3000
}

/// The one-character string of a decimal digit.
fn digit_str(d: u8) -> (r: &'static str)
    requires
        d < 10,
    ensures
        r@ == seq![digit_char(d as nat)],
{
    let s: &'static str = match d {
        0 => "0",
        1 => "1",
        2 => "2",
        3 => "3",
        4 => "4",
        5 => "5",
        6 => "6",
        7 => "7",
        8 => "8",
        _ => "9",
    };
    proof {
        reveal_strlit("0");
        reveal_strlit("1");
        reveal_strlit("2");
        reveal_strlit("3");
        reveal_strlit("4");
        reveal_strlit("5");
        reveal_strlit("6");
        reveal_strlit("7");
        reveal_strlit("8");
        reveal_strlit("9");
        assert(s@ =~= seq![digit_char(d as nat)]);
    }
    s
}

} // verus!
