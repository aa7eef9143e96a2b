//! Unsigned whole numbers as a sequence of [`Digit`]s, least significant
//! first.

use vstd::prelude::*;
use vstd::string::StringExecFns;
use crate::digit::Digit;
use crate::magnitude::{is_canonical, is_digits, value};
use crate::text::{char_digit, digit_char, msf_chars};
use crate::unsigned::{sub_cleaned, ub_add, ub_is_lower, ub_mul};

verus! {

/// An unsigned whole number of any size.
#[derive(Debug, PartialEq)]
pub struct BigUInt {
    /// The digits, from the least to the most significant.
    pub digits: Vec<Digit>,
}

impl View for BigUInt {
    type V = Seq<u8>;

    open spec fn view(&self) -> Seq<u8> {
        Seq::new(self.digits@.len(), |i: int| self.digits@[i]@)
    }
}

impl Clone for BigUInt {
    fn clone(&self) -> (r: BigUInt)
        ensures
            r@ == self@,
    {
        let mut digits: Vec<Digit> = Vec::new();
        let mut i: usize = 0;
        while i < self.digits.len()
            invariant
                i <= self.digits.len(),
                digits.len() == i,
                forall|k: int| 0 <= k < i ==> digits@[k] == self.digits@[k],
            decreases self.digits.len() - i,
        {
            digits.push(self.digits[i]);
            i += 1;
        }
        let r = BigUInt { digits: digits };
        proof {
            assert(r@ =~= self@);
        }
        r
    }
}

/// Every character of `s` is a digit.
pub open spec fn all_digit_chars(s: Seq<char>) -> bool {
    forall|i: int| 0 <= i < s.len() ==> char_digit(#[trigger] s[i]) is Some
}

/// The digits that the characters of `s` write, last character first.
pub open spec fn digits_of_text(s: Seq<char>) -> Seq<u8> {
    Seq::new(s.len(), |i: int| char_digit(s[s.len() - 1 - i]).unwrap())
}

impl BigUInt {
    /// The digits as plain integers.
    fn raw(&self) -> (v: Vec<u8>)
        ensures
            v@ == self@,
            is_digits(v@),
    {
        let mut v: Vec<u8> = Vec::new();
        let mut i: usize = 0;
        while i < self.digits.len()
            invariant
                i <= self.digits.len(),
                v.len() == i,
                forall|k: int| 0 <= k < i ==> v[k] == self.digits@[k]@ && v[k] < 10,
            decreases self.digits.len() - i,
        {
            v.push(self.digits[i].as_u8());
            i += 1;
        }
        proof {
            assert(v@ =~= self@);
        }
        v
    }

    /// The number of the given digits.
    fn from_raw(v: &Vec<u8>) -> (n: BigUInt)
        requires
            is_digits(v@),
        ensures
            n@ == v@,
    {
        let mut digits: Vec<Digit> = Vec::new();
        let mut i: usize = 0;
        while i < v.len()
            invariant
                i <= v.len(),
                is_digits(v@),
                digits.len() == i,
                forall|k: int| 0 <= k < i ==> digits@[k]@ == v[k],
            decreases v.len() - i,
        {
            digits.push(Digit::from_u8(v[i]));
            i += 1;
        }
        let n = BigUInt { digits: digits };
        proof {
            assert(n@ =~= v@);
        }
        n
    }

    /// Reads a whole number written in digits only, most significant
    /// first. Fails exactly when a character is not a digit.
    pub fn from_string(v: &str) -> (r: Result<BigUInt, ()>)
        ensures
            match r {
                Ok(n) => all_digit_chars(v@) && n@ == digits_of_text(v@),
                Err(_) => !all_digit_chars(v@),
            },
    {
        let mut written: Vec<Digit> = Vec::new();
        for c in it: v.chars()
            invariant
                it.seq() == v@,
                written.len() == it.index(),
                forall|k: int|
                    0 <= k < it.index() ==> char_digit(#[trigger] v@[k]) == Some(written@[k]@),
        {
            let ghost k = it.index() as int;
            match c {
                '0' | '1' | '2' | '3' | '4' | '5' | '6' | '7' | '8' | '9' => {
                    written.push(Digit::from_char(c));
                },
                _ => {
                    proof {
                        assert(v@[k] == c);
                        assert(char_digit(v@[k]) is None);
                    }
                    return Err(());
                },
            }
        }
        let n = written.len();
        let mut digits: Vec<Digit> = Vec::new();
        let mut i: usize = 0;
        while i < n
            invariant
                i <= n,
                n == written.len(),
                digits.len() == i,
                forall|k: int| 0 <= k < i ==> digits@[k] == written@[n - 1 - k],
            decreases n - i,
        {
            digits.push(written[n - 1 - i]);
            i += 1;
        }
        let r = BigUInt { digits: digits };
        proof {
            assert(r@ =~= digits_of_text(v@));
        }
        Ok(r)
    }

    /// Whether `n1` denotes a smaller number than `n2`.
    pub fn is_lower(n1: &BigUInt, n2: &BigUInt) -> (r: bool)
        ensures
            r == (value(n1@) < value(n2@)),
    {
        ub_is_lower(&n1.raw(), &n2.raw())
    }

    /// The sum of `n1` and `n2`, in canonical form.
    pub fn sum(n1: &BigUInt, n2: &BigUInt) -> (r: BigUInt)
        requires
            n1@.len() < usize::MAX,
            n2@.len() < usize::MAX,
        ensures
            is_canonical(r@),
            value(r@) == value(n1@) + value(n2@),
    {
        BigUInt::from_raw(&ub_add(n1.raw(), n2.raw()))
    }

    /// The product of `n1` and `n2`, in canonical form.
    pub fn mul(n1: &BigUInt, n2: &BigUInt) -> (r: BigUInt)
        requires
            n1@.len() + n2@.len() < usize::MAX,
        ensures
            is_canonical(r@),
            value(r@) == value(n1@) * value(n2@),
    {
        BigUInt::from_raw(&ub_mul(&n1.raw(), &n2.raw()))
    }

    /// The difference `n1 - n2`, in canonical form, for `n1` not below
    /// `n2`.
    pub fn sub(n1: &BigUInt, n2: &BigUInt) -> (r: BigUInt)
        requires
            value(n1@) >= value(n2@),
        ensures
            is_canonical(r@),
            value(r@) == value(n1@) - value(n2@),
    {
        BigUInt::from_raw(&sub_cleaned(&n1.raw(), &n2.raw()))
    }

    /// The number in digits, most significant first.
    pub fn to_string(&self) -> (out: String)
        ensures
            out@ == msf_chars(self@),
    {
        let n = self.digits.len();
        let mut out = String::new();
        let mut k: usize = 0;
        while k < n
            invariant
                k <= n,
                n == self.digits.len(),
                out@ == msf_chars(self@).take(k as int),
            decreases n - k,
        {
            let d = self.digits[n - 1 - k];
            out.append(crate::text::digit_str(d.as_u8()));
            proof {
                assert(msf_chars(self@).take(k + 1) =~= msf_chars(self@).take(k as int).push(
                    digit_char(d@),
                ));
            }
            k += 1;
        }
        proof {
            assert(msf_chars(self@).take(n as int) =~= msf_chars(self@));
        }
        out
    }
}

} // verus!
