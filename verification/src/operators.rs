//! The arithmetic operators on [`BigNum`], by value and by reference.
//!
//! Each operator is the function of the same meaning: its precondition is
//! that function's, and what it returns is stated, as there, over the view
//! of the result. The `*_spec` functions name a number of that value; the
//! operators promise no more of them than their own contracts say.

use std::ops::{Add, Div, Mul, Sub};
use vstd::prelude::*;
use vstd::std_specs::ops::{AddSpecImpl, DivSpecImpl, MulSpecImpl, SubSpecImpl};
use crate::big_num::BigNum;
use crate::decimal::{add_fits, dec_add, dec_div, dec_mul, dec_sub, div_fits, mul_fits};

verus! {

impl Add for BigNum {
    type Output = BigNum;

    fn add(self, rhs: BigNum) -> (r: BigNum)
        ensures
            r@ == dec_add(self@, rhs@),
    {
        BigNum::bn_add(&self, &rhs)
    }
}

impl AddSpecImpl for BigNum {
    open spec fn obeys_add_spec() -> bool {
        false
    }

    open spec fn add_req(self, rhs: BigNum) -> bool {
        add_fits(self@, rhs@)
    }

    open spec fn add_spec(self, rhs: BigNum) -> BigNum {
        choose|r: BigNum| r@ == dec_add(self@, rhs@)
    }
}

impl<'a> Add for &'a BigNum {
    type Output = BigNum;

    fn add(self, rhs: &'a BigNum) -> (r: BigNum)
        ensures
            r@ == dec_add(self@, rhs@),
    {
        BigNum::bn_add(self, rhs)
    }
}

impl<'a> AddSpecImpl for &'a BigNum {
    open spec fn obeys_add_spec() -> bool {
        false
    }

    open spec fn add_req(self, rhs: &'a BigNum) -> bool {
        add_fits(self@, rhs@)
    }

    open spec fn add_spec(self, rhs: &'a BigNum) -> BigNum {
        choose|r: BigNum| r@ == dec_add(self@, rhs@)
    }
}

impl Sub for BigNum {
    type Output = BigNum;

    fn sub(self, rhs: BigNum) -> (r: BigNum)
        ensures
            r@ == dec_sub(self@, rhs@),
    {
        BigNum::bn_sub(&self, &rhs)
    }
}

impl SubSpecImpl for BigNum {
    open spec fn obeys_sub_spec() -> bool {
        false
    }

    open spec fn sub_req(self, rhs: BigNum) -> bool {
        add_fits(self@, rhs@)
    }

    open spec fn sub_spec(self, rhs: BigNum) -> BigNum {
        choose|r: BigNum| r@ == dec_sub(self@, rhs@)
    }
}

impl<'a> Sub for &'a BigNum {
    type Output = BigNum;

    fn sub(self, rhs: &'a BigNum) -> (r: BigNum)
        ensures
            r@ == dec_sub(self@, rhs@),
    {
        BigNum::bn_sub(self, rhs)
    }
}

impl<'a> SubSpecImpl for &'a BigNum {
    open spec fn obeys_sub_spec() -> bool {
        false
    }

    open spec fn sub_req(self, rhs: &'a BigNum) -> bool {
        add_fits(self@, rhs@)
    }

    open spec fn sub_spec(self, rhs: &'a BigNum) -> BigNum {
        choose|r: BigNum| r@ == dec_sub(self@, rhs@)
    }
}

impl Mul for BigNum {
    type Output = BigNum;

    fn mul(self, rhs: BigNum) -> (r: BigNum)
        ensures
            r@ == dec_mul(self@, rhs@),
    {
        BigNum::bn_mul(&self, &rhs)
    }
}

impl MulSpecImpl for BigNum {
    open spec fn obeys_mul_spec() -> bool {
        false
    }

    open spec fn mul_req(self, rhs: BigNum) -> bool {
        mul_fits(self@, rhs@)
    }

    open spec fn mul_spec(self, rhs: BigNum) -> BigNum {
        choose|r: BigNum| r@ == dec_mul(self@, rhs@)
    }
}

impl<'a> Mul for &'a BigNum {
    type Output = BigNum;

    fn mul(self, rhs: &'a BigNum) -> (r: BigNum)
        ensures
            r@ == dec_mul(self@, rhs@),
    {
        BigNum::bn_mul(self, rhs)
    }
}

impl<'a> MulSpecImpl for &'a BigNum {
    open spec fn obeys_mul_spec() -> bool {
        false
    }

    open spec fn mul_req(self, rhs: &'a BigNum) -> bool {
        mul_fits(self@, rhs@)
    }

    open spec fn mul_spec(self, rhs: &'a BigNum) -> BigNum {
        choose|r: BigNum| r@ == dec_mul(self@, rhs@)
    }
}

impl Div for BigNum {
    type Output = BigNum;

    fn div(self, rhs: BigNum) -> (r: BigNum)
        ensures
            r@ == dec_div(self@, rhs@),
    {
        BigNum::quotient(&self, &rhs)
    }
}

impl DivSpecImpl for BigNum {
    open spec fn obeys_div_spec() -> bool {
        false
    }

    open spec fn div_req(self, rhs: BigNum) -> bool {
        rhs@.num != 0 && div_fits(self@, rhs@)
    }

    open spec fn div_spec(self, rhs: BigNum) -> BigNum {
        choose|r: BigNum| r@ == dec_div(self@, rhs@)
    }
}

impl<'a> Div for &'a BigNum {
    type Output = BigNum;

    fn div(self, rhs: &'a BigNum) -> (r: BigNum)
        ensures
            r@ == dec_div(self@, rhs@),
    {
        BigNum::quotient(self, rhs)
    }
}

impl<'a> DivSpecImpl for &'a BigNum {
    open spec fn obeys_div_spec() -> bool {
        false
    }

    open spec fn div_req(self, rhs: &'a BigNum) -> bool {
        rhs@.num != 0 && div_fits(self@, rhs@)
    }

    open spec fn div_spec(self, rhs: &'a BigNum) -> BigNum {
        choose|r: BigNum| r@ == dec_div(self@, rhs@)
    }
}

} // verus!
