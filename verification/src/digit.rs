//! A single decimal digit.

use vstd::prelude::*;
use crate::text::{char_digit, digit_char};

verus! {

/// An integer from 0 to 9.
#[derive(Clone, Copy, Debug, PartialEq, Eq)]
pub struct Digit {
    value: u8,
}

impl View for Digit {
    type V = u8;

    closed spec fn view(&self) -> u8 {
        self.value
    }
}

impl Digit {
    #[verifier::type_invariant]
    closed spec fn in_range(self) -> bool {
        self.value < 10
    }

    /// The sum of two digits: its last digit, and whether it carries.
    pub fn sum(n1: &Digit, n2: &Digit) -> (r: (Digit, bool))
        ensures
            r.0@ == (n1@ + n2@) % 10,
            r.1 == (n1@ + n2@ >= 10),
            r.0@ < 10,
    {
        proof {
            use_type_invariant(n1);
            use_type_invariant(n2);
        }
        let sum = n1.value + n2.value;
        (Digit { value: sum % 10 }, sum >= 10)
    }

    /// The product of two digits: its last digit, and its carry.
    pub fn mul(n1: &Digit, n2: &Digit) -> (r: (Digit, Digit))
        ensures
            r.0@ == (n1@ * n2@) % 10,
            r.1@ == (n1@ * n2@) / 10,
            r.0@ < 10,
            r.1@ < 10,
    {
        proof {
            use_type_invariant(n1);
            use_type_invariant(n2);
            assert(n1.value * n2.value <= 81) by (nonlinear_arith)
                requires
                    n1.value < 10,
                    n2.value < 10,
            ;
        }
        let product = n1.value * n2.value;
        (Digit { value: product % 10 }, Digit { value: product / 10 })
    }

    /// The digit `n`.
    pub fn from_u8(n: u8) -> (d: Digit)
        requires
            n < 10,
        ensures
            d@ == n,
    {
        Digit { value: n }
    }

    /// The digit that the character `c` writes.
    pub fn from_char(c: char) -> (d: Digit)
        requires
            char_digit(c) is Some,
        ensures
            Some(d@) == char_digit(c),
    {
        let v: u8 = match c {
            '0' => 0,
            '1' => 1,
            '2' => 2,
            '3' => 3,
            '4' => 4,
            '5' => 5,
            '6' => 6,
            '7' => 7,
            '8' => 8,
            _ => 9,
        };
        Digit { value: v }
    }

    /// The digit as an integer below ten.
    pub fn as_u8(&self) -> (n: u8)
        ensures
            n == self@,
            n < 10,
    {
        proof {
            use_type_invariant(self);
        }
        self.value
    }

    /// The character that writes the digit.
    pub fn as_char(&self) -> (c: char)
        ensures
            c == digit_char(self@),
    {
        proof {
            use_type_invariant(self);
        }
        match self.value {
            0 => '0',
            1 => '1',
            2 => '2',
            3 => '3',
            4 => '4',
            5 => '5',
            6 => '6',
            7 => '7',
            8 => '8',
            _ => '9',
        }
    }
}

} // verus!
