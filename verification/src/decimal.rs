//! The mathematical model of signed decimals: an integer numerator and a
//! scale, denoting `num / 10^scale`, with the arithmetic that the
//! executable operations are specified by.

use vstd::prelude::*;
use crate::magnitude::{digit_count, lemma_pow10_add, lemma_pow10_positive, pow10};

verus! {

/// The number `num / 10^scale`.
pub struct Decimal {
    pub num: int,
    pub scale: nat,
}

/// The absolute value of `x`.
pub open spec fn abs(x: int) -> nat {
    if x < 0 {
        (-x) as nat
    } else {
        x as nat
    }
}

/// The integer of magnitude `v` with the given sign.
pub open spec fn signed(negative: bool, v: nat) -> int {
    if negative {
        -(v as int)
    } else {
        v as int
    }
}

/// The larger of two scales.
pub open spec fn max_scale(a: nat, b: nat) -> nat {
    if a >= b {
        a
    } else {
        b
    }
}

/// `d` is in lowest terms: its scale cannot be lowered without changing
/// its value. Zero is in lowest terms only at scale zero.
pub open spec fn is_normal(d: Decimal) -> bool {
    d.scale == 0 || d.num % 10 != 0
}

/// `d` in lowest terms: trailing zeros of the numerator are dropped as long
/// as the scale allows.
pub open spec fn normalize(d: Decimal) -> Decimal
    decreases d.scale,
{
    if d.scale > 0 && d.num % 10 == 0 {
        normalize(Decimal { num: d.num / 10, scale: (d.scale - 1) as nat })
    } else {
        d
    }
}

/// The numerator of `d` when it is written at the scale `s`, which is at
/// least its own.
pub open spec fn lift(d: Decimal, s: nat) -> int {
    d.num * pow10((s - d.scale) as nat)
}

/// `a` and `b` denote the same number.
pub open spec fn same_value(a: Decimal, b: Decimal) -> bool {
    lift(a, max_scale(a.scale, b.scale)) == lift(b, max_scale(a.scale, b.scale))
}

/// The sum of `a` and `b` at the larger of their scales.
pub open spec fn raw_add(a: Decimal, b: Decimal) -> Decimal {
    let s = max_scale(a.scale, b.scale);
    Decimal { num: lift(a, s) + lift(b, s), scale: s }
}

/// The product of `a` and `b` at the sum of their scales.
pub open spec fn raw_mul(a: Decimal, b: Decimal) -> Decimal {
    Decimal { num: a.num * b.num, scale: a.scale + b.scale }
}

/// The opposite of `a`.
pub open spec fn dec_neg(a: Decimal) -> Decimal {
    Decimal { num: -a.num, scale: a.scale }
}

/// The sum of `a` and `b`, in lowest terms.
pub open spec fn dec_add(a: Decimal, b: Decimal) -> Decimal {
    normalize(raw_add(a, b))
}

/// The difference of `a` and `b`, in lowest terms.
pub open spec fn dec_sub(a: Decimal, b: Decimal) -> Decimal {
    dec_add(a, dec_neg(b))
}

/// The product of `a` and `b`, in lowest terms.
pub open spec fn dec_mul(a: Decimal, b: Decimal) -> Decimal {
    normalize(raw_mul(a, b))
}

/// `a` denotes a smaller number than `b`.
pub open spec fn dec_lt(a: Decimal, b: Decimal) -> bool {
    let s = max_scale(a.scale, b.scale);
    lift(a, s) < lift(b, s)
}

/// Zero.
pub open spec fn dec_zero() -> Decimal {
    Decimal { num: 0, scale: 0 }
}

/// One.
pub open spec fn dec_one() -> Decimal {
    Decimal { num: 1, scale: 0 }
}

/// The exponent `k` when `n` is `10^k`.
pub open spec fn pow10_exponent(n: nat) -> Option<nat>
    decreases n,
{
    if n == 1 {
        Some(0nat)
    } else if n >= 10 && n % 10 == 0 {
        match pow10_exponent(n / 10) {
            Some(k) => Some(k + 1),
            None => None,
        }
    } else {
        None
    }
}

/// The number of fractional digits that a quotient is cut at, unless the
/// scales of the operands ask for more.
pub const FLOAT_PRECISION: u32 = 15;

/// `FLOAT_PRECISION` as a number of digits.
pub open spec fn division_precision() -> nat {
    FLOAT_PRECISION as nat
}

/// The scale at which the quotient of `a` by `b` is cut: the precision, or
/// the difference of the scales where that is larger.
pub open spec fn quotient_scale(a: Decimal, b: Decimal) -> nat {
    if a.scale >= b.scale + division_precision() {
        (a.scale - b.scale) as nat
    } else {
        division_precision()
    }
}

/// The sign of the quotient or product of `a` and `b`, as a factor.
pub open spec fn sign_factor(a: int, b: int) -> int {
    if (a < 0) != (b < 0) {
        -1
    } else {
        1
    }
}

/// The quotient of `a` by a nonzero `b`. Division by a power of ten is
/// exact. Any other quotient is cut, toward zero and without rounding, at
/// `quotient_scale(a, b)` fractional digits. The result is in lowest terms.
pub open spec fn dec_div(a: Decimal, b: Decimal) -> Decimal {
    match pow10_exponent(abs(b.num)) {
        Some(k) => dec_shift(a, k as int - b.scale as int, b.num < 0),
        None => {
            let p = quotient_scale(a, b);
            let e = (p + b.scale - a.scale) as nat;
            normalize(
                Decimal {
                    num: sign_factor(a.num, b.num) * ((abs(a.num) * pow10(e)) / abs(b.num)) as int,
                    scale: p,
                },
            )
        },
    }
}

/// `a` divided by `10^k`, or by `-10^k` when `negate` is set; `k` may be
/// negative. The result is exact and in lowest terms.
pub open spec fn dec_shift(a: Decimal, k: int, negate: bool) -> Decimal {
    let num = if negate {
        -a.num
    } else {
        a.num
    };
    if a.scale + k >= 0 {
        normalize(Decimal { num: num, scale: (a.scale + k) as nat })
    } else {
        normalize(Decimal { num: num * pow10((-(a.scale + k)) as nat), scale: 0 })
    }
}

/// The number of digits of `a` when it is written at the scale `s`.
pub open spec fn aligned_len(a: Decimal, s: nat) -> nat {
    digit_count(abs(a.num)) + (s - a.scale) as nat
}

/// Both operands of a sum, written at their common scale, have fewer
/// digits than a vector can index.
pub open spec fn add_fits(a: Decimal, b: Decimal) -> bool {
    let s = max_scale(a.scale, b.scale);
    aligned_len(a, s) < usize::MAX && aligned_len(b, s) < usize::MAX
}

/// The digits of a product can be indexed, and its scale can be held.
pub open spec fn mul_fits(a: Decimal, b: Decimal) -> bool {
    &&& digit_count(abs(a.num)) + digit_count(abs(b.num)) < usize::MAX
    &&& a.scale + b.scale <= u32::MAX
}

/// The result of `dec_shift(a, k, _)` can be held: its scale fits, or the
/// digits that a negative scale turns into zeros can be indexed.
pub open spec fn shift_fits(a: Decimal, k: int) -> bool {
    if a.scale + k >= 0 {
        a.scale + k <= u32::MAX
    } else {
        digit_count(abs(a.num)) - (a.scale + k) <= usize::MAX
    }
}

/// The exponent of `a`, were it a power of ten, fits a signed index.
pub open spec fn exponent_fits(a: Decimal) -> bool {
    digit_count(abs(a.num)) <= isize::MAX && a.scale <= isize::MAX
}

/// The operands and the result of `dec_div(a, b)` can be held.
pub open spec fn div_fits(a: Decimal, b: Decimal) -> bool {
    match pow10_exponent(abs(b.num)) {
        Some(k) => shift_fits(a, k as int - b.scale as int),
        None => {
            let e = (quotient_scale(a, b) + b.scale - a.scale) as nat;
            &&& digit_count(abs(a.num)) + e + 2 < usize::MAX
            &&& digit_count(abs(b.num)) + 2 < usize::MAX
        },
    }
}

/// Both operands of a Euclidean division, written at their common scale,
/// leave room for the division's working digits.
pub open spec fn euclid_fits(a: Decimal, b: Decimal) -> bool {
    let s = max_scale(a.scale, b.scale);
    aligned_len(a, s) + 2 < usize::MAX && aligned_len(b, s) + 2 < usize::MAX
}

/// The whole quotient of `a` by `b`, for `a` not negative and `b`
/// positive: the largest whole number `q` with `q * b <= a`.
pub open spec fn euclid_quotient(a: Decimal, b: Decimal) -> Decimal {
    let s = max_scale(a.scale, b.scale);
    Decimal { num: lift(a, s) / lift(b, s), scale: 0 }
}

/// What is left of `a` when `b` is taken from it as often as it goes, in
/// lowest terms.
pub open spec fn euclid_remainder(a: Decimal, b: Decimal) -> Decimal {
    let s = max_scale(a.scale, b.scale);
    normalize(Decimal { num: lift(a, s) % lift(b, s), scale: s })
}

/// Half of `p`, rounded toward zero.
pub open spec fn half(p: int) -> int {
    if p >= 0 {
        p / 2
    } else {
        -((-p) / 2)
    }
}

/// `a` to the power `p`, by repeated squaring. A negative odd exponent
/// divides by `a` once at each level, with the truncation of `dec_div`.
pub open spec fn dec_pow(a: Decimal, p: int) -> Decimal
    decreases abs(p),
{
    if p == 0 {
        dec_one()
    } else if p == 1 {
        a
    } else {
        let t = dec_pow(a, half(p));
        let sq = dec_mul(t, t);
        if p % 2 == 0 {
            sq
        } else if p > 0 {
            dec_mul(sq, a)
        } else {
            dec_div(sq, a)
        }
    }
}

/// Every product and quotient on the way to `dec_pow(a, p)` can be held.
pub open spec fn pow_fits(a: Decimal, p: int) -> bool
    decreases abs(p),
{
    if p == 0 || p == 1 {
        true
    } else {
        let t = dec_pow(a, half(p));
        let sq = dec_mul(t, t);
        &&& pow_fits(a, half(p))
        &&& mul_fits(t, t)
        &&& if p % 2 == 0 {
            true
        } else if p > 0 {
            mul_fits(sq, a)
        } else {
            div_fits(sq, a)
        }
    }
}

/// A power of ten has its exponent.
pub proof fn lemma_pow10_exponent(k: nat)
    ensures
        pow10_exponent(pow10(k)) == Some(k),
    decreases k,
{
    if k > 0 {
        lemma_pow10_exponent((k - 1) as nat);
        lemma_pow10_positive((k - 1) as nat);
        let p = pow10((k - 1) as nat);
        assert(pow10(k) == 10 * p);
        assert((10 * p) / 10 == p);
    }
}

/// Only a power of ten has an exponent.
pub proof fn lemma_pow10_exponent_sound(n: nat)
    requires
        pow10_exponent(n) is Some,
    ensures
        n == pow10(pow10_exponent(n).unwrap()),
    decreases n,
{
    if n != 1 {
        lemma_pow10_exponent_sound(n / 10);
    }
}

/// Raising the scale by `k` multiplies the lifted numerator by `10^k`.
pub proof fn lemma_lift_more(d: Decimal, s: nat, k: nat)
    requires
        s >= d.scale,
    ensures
        lift(d, s + k) == lift(d, s) * pow10(k),
{
    lemma_pow10_add((s - d.scale) as nat, k);
    assert(s + k - d.scale == (s - d.scale) + k);
    let p = pow10((s - d.scale) as nat) as int;
    let q = pow10(k) as int;
    assert(d.num * (p * q) == (d.num * p) * q) by (nonlinear_arith);
}

/// Lowest terms keep the number: at every scale that fits `d`, the
/// normalised decimal lifts to the same numerator.
pub proof fn lemma_normalize(d: Decimal, s: nat)
    requires
        s >= d.scale,
    ensures
        is_normal(normalize(d)),
        normalize(d).scale <= d.scale,
        lift(normalize(d), s) == lift(d, s),
        d.num == 0 <==> normalize(d).num == 0,
        d.num < 0 <==> normalize(d).num < 0,
    decreases d.scale,
{
    if d.scale > 0 && d.num % 10 == 0 {
        let d1 = Decimal { num: d.num / 10, scale: (d.scale - 1) as nat };
        lemma_normalize(d1, s);
        let p = pow10((s - d.scale) as nat) as int;
        assert(pow10((s - d1.scale) as nat) == 10 * p);
        assert((d.num / 10) * (10 * p) == d.num * p) by (nonlinear_arith)
            requires
                d.num % 10 == 0,
        ;
    }
}

/// The normal form of the opposite is the opposite of the normal form.
pub proof fn lemma_normalize_neg(d: Decimal)
    ensures
        normalize(dec_neg(d)) == dec_neg(normalize(d)),
    decreases d.scale,
{
    assert((-d.num) % 10 == 0 <==> d.num % 10 == 0);
    if d.scale > 0 && d.num % 10 == 0 {
        let d1 = Decimal { num: d.num / 10, scale: (d.scale - 1) as nat };
        lemma_normalize_neg(d1);
        assert((-d.num) / 10 == -(d.num / 10));
    }
}

/// A decimal in lowest terms is its own normal form.
pub proof fn lemma_normalize_normal(d: Decimal)
    requires
        is_normal(d),
    ensures
        normalize(d) == d,
{
}

/// Two decimals in lowest terms that lift to one numerator are equal.
pub proof fn lemma_normal_unique(a: Decimal, b: Decimal, s: nat)
    requires
        is_normal(a),
        is_normal(b),
        s >= a.scale,
        s >= b.scale,
        lift(a, s) == lift(b, s),
    ensures
        a == b,
{
    if a.scale <= b.scale {
        lemma_normal_unique_ordered(a, b, s);
    } else {
        lemma_normal_unique_ordered(b, a, s);
    }
}

proof fn lemma_normal_unique_ordered(a: Decimal, b: Decimal, s: nat)
    requires
        is_normal(a),
        is_normal(b),
        a.scale <= b.scale <= s,
        lift(a, s) == lift(b, s),
    ensures
        a == b,
{
    let k = (b.scale - a.scale) as nat;
    let r = (s - b.scale) as nat;
    lemma_lift_more(a, b.scale, r);
    assert(b.scale + r == s);
    lemma_pow10_positive(r);
    let pr = pow10(r) as int;
    let pk = pow10(k) as int;
    assert(lift(a, b.scale) == a.num * pk);
    assert(a.num * pk == b.num) by (nonlinear_arith)
        requires
            (a.num * pk) * pr == b.num * pr,
            pr >= 1,
    ;
    if k > 0 {
        let pk1 = pow10((k - 1) as nat) as int;
        assert(pk == 10 * pk1);
        let m = a.num * pk1;
        assert(a.num * (10 * pk1) == 10 * m) by (nonlinear_arith)
            requires
                m == a.num * pk1,
        ;
        assert((10 * m) % 10 == 0);
    } else {
        assert(a.num * pk == a.num) by (nonlinear_arith)
            requires
                pk == 1,
        ;
    }
}

} // verus!
