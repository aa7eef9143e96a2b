//! Signed decimals of unbounded magnitude and scale.

use std::cmp::Ordering;
use vstd::arithmetic::div_mod::lemma_fundamental_div_mod_converse;
use vstd::prelude::*;
use vstd::std_specs::cmp::{PartialEqSpecImpl, PartialOrdSpecImpl};
use crate::decimal::{
    abs, add_fits, dec_add, dec_div, dec_lt, dec_mul, dec_neg, dec_one, dec_pow, dec_shift,
    dec_sub, dec_zero, div_fits, euclid_fits, euclid_quotient, euclid_remainder, exponent_fits,
    is_normal, lemma_normal_unique, lemma_normalize, lemma_normalize_neg, lemma_pow10_exponent,
    lemma_pow10_exponent_sound, lift, max_scale, mul_fits, normalize, pow10_exponent, pow_fits,
    shift_fits, signed, Decimal, FLOAT_PRECISION,
};
use crate::magnitude::{
    digit_count, is_canonical, is_digits, is_one_then_zeros, lemma_canonical_is_digits_of,
    lemma_canonical_unique, lemma_digit_count, lemma_first_difference, lemma_longer_is_larger,
    lemma_one_then_zeros_value, lemma_pow10_positive, lemma_power_of_ten_digits, lemma_trim,
    lemma_value_lower, lemma_value_push, lemma_value_shift, lemma_value_single,
    lemma_value_split, lemma_value_zero, lemma_zero_tail_order, pow10, value,
};
use crate::error::NumError;
use crate::long_div::div_nonzero;
use crate::text::{format_parts, format_spec, parse_parts, parse_spec};
use crate::unsigned::{
    copy_digits, is_power_of_ten, shortdiv_nonzero, sub_cleaned, ub_add, ub_clean, ub_mul, zeros,
};

verus! {

/// An exact decimal number: a sign, a magnitude of base-10 digits held
/// least significant first, and the number of those digits that stand
/// behind the decimal point.
///
/// A value is always in lowest terms: the magnitude has no redundant
/// leading zero, the scale is as small as the value allows, and zero is
/// never negative.
#[derive(Debug)]
pub struct BigNum {
    negative: bool,
    abs: Vec<u8>,
    power: u32,
}

impl View for BigNum {
    type V = Decimal;

    closed spec fn view(&self) -> Decimal {
        Decimal { num: signed(self.negative, value(self.abs@)), scale: self.power as nat }
    }
}

/// The digits of `abs` above `k` zeros: its value times `10^k`.
fn padded(abs: &Vec<u8>, k: usize) -> (w: Vec<u8>)
    requires
        is_digits(abs@),
        abs.len() + k <= usize::MAX,
    ensures
        w@ == Seq::new(k as nat, |i: int| 0u8) + abs@,
        is_digits(w@),
        value(w@) == value(abs@) * pow10(k as nat),
{
    let mut w = zeros(k);
    let ghost z = w@;
    assert(z =~= Seq::new(k as nat, |i: int| 0u8));
    let mut i: usize = 0;
    while i < abs.len()
        invariant
            i <= abs.len(),
            abs.len() + k <= usize::MAX,
            w@ == z + abs@.take(i as int),
        decreases abs.len() - i,
    {
        w.push(abs[i]);
        proof {
            assert(abs@.take(i + 1) =~= abs@.take(i as int).push(abs[i as int]));
            assert(w@ =~= z + abs@.take(i + 1));
        }
        i += 1;
    }
    proof {
        assert(abs@.take(abs.len() as int) =~= abs@);
        lemma_value_shift(k as nat, abs@);
    }
    w
}

/// Whether `a` and `b` hold the same digits.
fn same_digits(a: &Vec<u8>, b: &Vec<u8>) -> (r: bool)
    ensures
        r == (a@ == b@),
{
    if a.len() != b.len() {
        return false;
    }
    let mut i: usize = 0;
    while i < a.len()
        invariant
            i <= a.len(),
            a.len() == b.len(),
            forall|k: int| 0 <= k < i ==> a[k] == b[k],
        decreases a.len() - i,
    {
        if a[i] != b[i] {
            return false;
        }
        i += 1;
    }
    proof {
        assert(a@ =~= b@);
    }
    true
}

/// The number of leading digits, counted from the most significant end,
/// on which `a` and `b` agree.
fn first_difference(a: &Vec<u8>, b: &Vec<u8>) -> (k: usize)
    ensures
        k <= a.len(),
        k <= b.len(),
        forall|i: int|
            a.len() - k <= i < a.len() ==> #[trigger] a[i] == b[i + (b.len() - a.len())],
        k < a.len() && k < b.len() ==> a[a.len() - 1 - k] != b[b.len() - 1 - k],
{
    let la = a.len();
    let lb = b.len();
    let mut k: usize = 0;
    while k < la && k < lb && a[la - 1 - k] == b[lb - 1 - k]
        invariant
            k <= la,
            k <= lb,
            la == a.len(),
            lb == b.len(),
            forall|i: int| la - k <= i < la ==> #[trigger] a[i] == b[i + (lb - la)],
        decreases la - k,
    {
        k += 1;
    }
    k
}

/// The magnitude of a number written at a larger scale is the value of its
/// digits above as many zeros.
proof fn lemma_abs_lift(negative: bool, digits: Seq<u8>, k: nat)
    ensures
        abs(signed(negative, value(digits)) * pow10(k)) == value(digits) * pow10(k),
        value(digits) == 0 ==> value(digits) * pow10(k) == 0,
        value(digits) > 0 ==> value(digits) * pow10(k) > 0,
{
    let v = value(digits) as int;
    let p = pow10(k) as int;
    lemma_pow10_positive(k);
    assert(v > 0 ==> v * p > 0) by (nonlinear_arith)
        requires
            p >= 1,
    ;
    assert((-v) * p == -(v * p)) by (nonlinear_arith);
    assert(v * p >= 0) by (nonlinear_arith)
        requires
            v >= 0,
            p >= 0,
    ;
    assert(v == 0 ==> v * p == 0) by (nonlinear_arith);
}

/// Of two nonzero canonical magnitudes above zeros, the longer is the
/// larger.
proof fn lemma_padded_lengths(a: Seq<u8>, b: Seq<u8>, ka: nat, kb: nat)
    requires
        is_canonical(a),
        is_canonical(b),
        value(a) != 0,
        value(b) != 0,
    ensures
        a.len() + ka < b.len() + kb ==> value(a) * pow10(ka) < value(b) * pow10(kb),
        a.len() + ka > b.len() + kb ==> value(a) * pow10(ka) > value(b) * pow10(kb),
{
    let sa = Seq::new(ka, |i: int| 0u8) + a;
    let sb = Seq::new(kb, |i: int| 0u8) + b;
    lemma_value_shift(ka, a);
    lemma_value_shift(kb, b);
    if a.len() == 1 {
        lemma_value_single(a);
    }
    if b.len() == 1 {
        lemma_value_single(b);
    }
    assert(sa.last() == a.last());
    assert(sb.last() == b.last());
    if sa.len() < sb.len() {
        lemma_longer_is_larger(sa, sb);
    }
    if sa.len() > sb.len() {
        lemma_longer_is_larger(sb, sa);
    }
}

/// Two magnitudes above zeros, of one length in all, that agree on their
/// `k` leading digits: they are ordered as their next digits are, or, when
/// one of them is used up, as the rest of the other tells.
proof fn lemma_padded_order(a: Seq<u8>, b: Seq<u8>, ka: nat, kb: nat, k: int)
    requires
        is_digits(a),
        is_digits(b),
        a.len() + ka == b.len() + kb,
        0 <= k <= a.len(),
        k <= b.len(),
        forall|i: int|
            a.len() - k <= i < a.len() ==> #[trigger] a[i] == b[i + (b.len() - a.len())],
    ensures
        k < a.len() && k < b.len() && a[a.len() - 1 - k] < b[b.len() - 1 - k] ==> value(a)
            * pow10(ka) < value(b) * pow10(kb),
        k < a.len() && k < b.len() && a[a.len() - 1 - k] > b[b.len() - 1 - k] ==> value(a)
            * pow10(ka) > value(b) * pow10(kb),
        k == a.len() && k == b.len() ==> value(a) * pow10(ka) == value(b) * pow10(kb),
        k == a.len() && k < b.len() && kb == 0 && b[0] != 0 ==> value(a) * pow10(ka) < value(b)
            * pow10(kb),
        k == b.len() && k < a.len() && ka == 0 && a[0] != 0 ==> value(a) * pow10(ka) > value(b)
            * pow10(kb),
{
    let sa = Seq::new(ka, |i: int| 0u8) + a;
    let sb = Seq::new(kb, |i: int| 0u8) + b;
    let n = sa.len() as int;
    lemma_value_shift(ka, a);
    lemma_value_shift(kb, b);
    assert forall|i: int| n - k <= i < n implies sa[i] == sb[i] by {
        assert(sa[i] == a[i - ka]);
        assert(sb[i] == b[i - kb]);
    }
    if k < a.len() && k < b.len() {
        let idx = n - 1 - k;
        assert(sa[idx] == a[a.len() - 1 - k]);
        assert(sb[idx] == b[b.len() - 1 - k]);
        if sa[idx] < sb[idx] {
            lemma_first_difference(sa, sb, idx);
        }
        if sa[idx] > sb[idx] {
            lemma_first_difference(sb, sa, idx);
        }
    } else if k == a.len() && k == b.len() {
        assert(sa =~= sb);
    } else if k == a.len() {
        if kb == 0 && b[0] != 0 {
            assert(forall|i: int| 0 <= i < ka ==> sa[i] == 0);
            lemma_zero_tail_order(sa, sb, ka as int);
            assert(sb[0] == b[0]);
        }
    } else {
        if ka == 0 && a[0] != 0 {
            assert(forall|i: int| 0 <= i < kb ==> sb[i] == 0);
            lemma_zero_tail_order(sb, sa, kb as int);
            assert(sa[0] == a[0]);
        }
    }
}

/// The lowest digit of a magnitude is its value modulo ten.
proof fn lemma_lowest_digit(a: Seq<u8>)
    requires
        is_digits(a),
        a.len() >= 1,
    ensures
        value(a) % 10 == a[0],
        (-(value(a) as int)) % 10 == 0 <==> a[0] == 0,
{
    assert(value(a) == a[0] + 10 * value(a.drop_first()));
}

/// How `a * 10^(s - pa)` compares to `b * 10^(s - pb)`, with `s` the larger
/// of the scales `pa` and `pb`: `-1` when the first is the smaller, `0`
/// when they are equal, `1` when the first is the larger. Both magnitudes
/// are canonical, and neither ends in a fractional zero.
#[verifier::spinoff_prover]
fn aligned_order(a: &Vec<u8>, pa: u32, b: &Vec<u8>, pb: u32) -> (r: i8)
    requires
        is_canonical(a@),
        is_canonical(b@),
        pa > 0 ==> a[0] != 0,
        pb > 0 ==> b[0] != 0,
    ensures
        -1 <= r <= 1,
        r == -1 <==> value(a@) * pow10((max_scale(pa as nat, pb as nat) - pa) as nat) < value(b@)
            * pow10((max_scale(pa as nat, pb as nat) - pb) as nat),
        r == 1 <==> value(a@) * pow10((max_scale(pa as nat, pb as nat) - pa) as nat) > value(b@)
            * pow10((max_scale(pa as nat, pb as nat) - pb) as nat),
{
    let ghost ka = (max_scale(pa as nat, pb as nat) - pa) as nat;
    let ghost kb = (max_scale(pa as nat, pb as nat) - pb) as nat;
    let la = a.len();
    let lb = b.len();
    let z1 = la == 1 && a[0] == 0;
    let z2 = lb == 1 && b[0] == 0;
    proof {
        lemma_zero_digits(a@);
        lemma_zero_digits(b@);
        lemma_abs_lift(false, a@, ka);
        lemma_abs_lift(false, b@, kb);
    }
    if z1 || z2 {
        return if z1 && z2 {
            0
        } else if z1 {
            -1
        } else {
            1
        };
    }
    // lengths at the common scale: la + (s - pa) against lb + (s - pb)
    let wa: u128 = la as u128 + pb as u128;
    let wb: u128 = lb as u128 + pa as u128;
    if wa != wb {
        proof {
            lemma_padded_lengths(a@, b@, ka, kb);
        }
        return if wa < wb {
            -1
        } else {
            1
        };
    }
    let k = first_difference(a, b);
    proof {
        lemma_padded_order(a@, b@, ka, kb, k as int);
    }
    if k < la && k < lb {
        if a[la - 1 - k] < b[lb - 1 - k] {
            -1
        } else {
            1
        }
    } else if la < lb {
        -1
    } else if la > lb {
        1
    } else {
        0
    }
}

/// A canonical magnitude denotes zero exactly when it is the single digit
/// zero.
proof fn lemma_zero_digits(a: Seq<u8>)
    requires
        is_canonical(a),
    ensures
        value(a) == 0 <==> (a.len() == 1 && a[0] == 0),
{
    if a.len() == 1 {
        lemma_value_single(a);
    } else {
        lemma_value_lower(a);
        lemma_pow10_positive((a.len() - 1) as nat);
    }
}

impl BigNum {
    #[verifier::type_invariant]
    closed spec fn well_formed(self) -> bool {
        &&& is_canonical(self.abs@)
        &&& is_normal(self@)
        &&& self.negative ==> value(self.abs@) > 0
    }

    /// The number of the given sign, digits and scale, brought to lowest
    /// terms: fractional zeros at the least significant end are dropped and
    /// the scale lowered with them, leading zeros are dropped, and a zero
    /// is given no sign and no scale.
    fn clean(negative: bool, abs: Vec<u8>, power: u32) -> (r: BigNum)
        requires
            is_digits(abs@),
        ensures
            r@ == normalize(Decimal { num: signed(negative, value(abs@)), scale: power as nat }),
    {
        let mut abs = abs;
        let ghost abs0 = abs@;
        let ghost d0 = Decimal { num: signed(negative, value(abs0)), scale: power as nat };
        // fractional zeros at the least significant end
        let mut k: usize = 0;
        while k < abs.len() && (k as u64) < (power as u64) && abs[k] == 0
            invariant
                k <= abs.len(),
                k <= power,
                forall|i: int| 0 <= i < k ==> abs[i] == 0,
            decreases abs.len() - k,
        {
            k += 1;
        }
        let mut digits = abs.split_off(k);
        proof {
            assert(digits@ =~= abs0.skip(k as int));
            assert(abs@ =~= abs0.take(k as int));
            lemma_value_split(abs0, k as int);
            lemma_value_zero(abs0.take(k as int));
            lemma_trim(digits@);
            lemma_pow10_positive(k as nat);
            if digits.len() > 0 {
                assert(digits@.drop_first() =~= abs0.skip(k + 1));
            }
        }
        let ghost tail = digits@;
        ub_clean(&mut digits);
        if digits.len() == 0 {
            digits.push(0);
            proof {
                lemma_value_single(digits@);
            }
        }
        let is_zero = digits.len() == 1 && digits[0] == 0;
        proof {
            if digits.len() == 1 {
                lemma_value_single(digits@);
            } else {
                lemma_value_lower(digits@);
                lemma_pow10_positive((digits.len() - 1) as nat);
            }
        }
        let r = if is_zero {
            BigNum { negative: false, abs: digits, power: 0 }
        } else {
            proof {
                // the lowest digit left is nonzero unless the scale is used up
                let v1 = value(tail) as int;
                let p = pow10(k as nat) as int;
                assert(value(abs0) == p * v1);
                if k < power {
                    assert(tail.len() > 0);
                    assert(tail[0] == abs0[k as int]);
                    assert(v1 % 10 == tail[0] as int);
                    assert((-v1) % 10 != 0);
                }
            }
            BigNum { negative: negative, abs: digits, power: power - (k as u32) }
        };
        proof {
            let v1 = value(tail) as int;
            let p = pow10(k as nat) as int;
            lemma_normalize(d0, power as nat);
            if is_zero {
                assert(p * v1 == 0) by (nonlinear_arith)
                    requires
                        v1 == 0,
                ;
                assert(0 * pow10(power as nat) == 0) by (nonlinear_arith);
            } else {
                assert((-v1) * p == -(p * v1)) by (nonlinear_arith);
                assert(v1 * p == p * v1) by (nonlinear_arith);
                assert(d0.num * pow10(0) == d0.num) by (nonlinear_arith)
                    requires
                        pow10(0) == 1,
                ;
            }
            lemma_normal_unique(r@, normalize(d0), power as nat);
        }
        r
    }

    /// Builds a number from a sign, digits from the least significant one,
    /// and the number of digits behind the decimal point. Fails with
    /// `Validation` exactly when an element of `abs` is not a digit.
    pub fn new(negative: bool, abs: Vec<u8>, power: u32) -> (r: Result<BigNum, NumError>)
        ensures
            match r {
                Ok(n) => is_digits(abs@) && n@ == normalize(
                    Decimal { num: signed(negative, value(abs@)), scale: power as nat },
                ),
                Err(e) => !is_digits(abs@) && e == NumError::Validation,
            },
    {
        let mut i: usize = 0;
        while i < abs.len()
            invariant
                i <= abs.len(),
                forall|k: int| 0 <= k < i ==> abs[k] < 10,
            decreases abs.len() - i,
        {
            if abs[i] >= 10 {
                return Err(NumError::Validation);
            }
            i += 1;
        }
        Ok(BigNum::clean(negative, abs, power))
    }

    /// Zero.
    pub fn zero() -> (r: BigNum)
        ensures
            r@ == dec_zero(),
    {
        let mut abs: Vec<u8> = Vec::new();
        abs.push(0);
        proof {
            lemma_value_single(abs@);
        }
        BigNum { negative: false, abs: abs, power: 0 }
    }

    /// One.
    pub fn one() -> (r: BigNum)
        ensures
            r@ == dec_one(),
    {
        let mut abs: Vec<u8> = Vec::new();
        abs.push(1);
        proof {
            lemma_value_single(abs@);
        }
        BigNum { negative: false, abs: abs, power: 0 }
    }

    /// Reads a decimal literal: an optional sign, then digits with at most
    /// one `.` among them; spaces are ignored. Fails with `Format` exactly
    /// when the text is not such a literal.
    pub fn from_string(origin_string: &str) -> (r: Result<BigNum, NumError>)
        requires
            origin_string@.len() <= u32::MAX,
        ensures
            match parse_spec(origin_string@) {
                Some(d) => r matches Ok(n) && n@ == normalize(d),
                None => r == Err::<BigNum, NumError>(NumError::Format),
            },
    {
        match parse_parts(origin_string) {
            Ok((negative, digits, scale)) => Ok(BigNum::clean(negative, digits, scale)),
            Err(e) => Err(e),
        }
    }

    /// The whole number `n`.
    pub fn from_i32(n: i32) -> (r: Result<BigNum, NumError>)
        ensures
            r matches Ok(x) && x@ == (Decimal { num: n as int, scale: 0 }),
    {
        let negative = n < 0;
        let wide = n as i64;
        let mut rest: u64 = if negative {
            (-wide) as u64
        } else {
            wide as u64
        };
        let ghost magnitude = rest;
        let mut digits: Vec<u8> = Vec::new();
        proof {
            assert(rest * pow10(0) == rest) by (nonlinear_arith)
                requires
                    pow10(0) == 1,
            ;
        }
        while rest > 0
            invariant
                is_digits(digits@),
                value(digits@) + rest * pow10(digits.len() as nat) == magnitude,
            decreases rest,
        {
            let d = (rest % 10) as u8;
            let ghost d0 = digits@;
            let ghost r0 = rest;
            digits.push(d);
            rest = rest / 10;
            proof {
                lemma_value_push(d0, d);
                let p = pow10(d0.len()) as int;
                assert(pow10((d0.len() + 1) as nat) == 10 * p);
                assert(d * p + rest * (10 * p) == r0 * p) by (nonlinear_arith)
                    requires
                        d + 10 * rest == r0,
                ;
            }
        }
        proof {
            assert(0 * pow10(digits.len() as nat) == 0) by (nonlinear_arith);
        }
        Ok(BigNum::clean(negative, digits, 0))
    }

    /// The text of this number: a `-` when it is negative, the whole part,
    /// and, unless the scale is zero, a `.` and the fractional digits. A
    /// number below one in magnitude is written with a leading `0.`.
    pub fn to_string(&self) -> (out: String)
        ensures
            out@ == format_spec(self@),
    {
        proof {
            use_type_invariant(self);
            lemma_canonical_is_digits_of(self.abs@);
        }
        format_parts(self.negative, &self.abs, self.power)
    }

    /// The number of digits behind the decimal point, which is as small as
    /// the value allows.
    pub fn scale(&self) -> (r: u32)
        ensures
            r == self@.scale,
            is_normal(self@),
    {
        proof {
            use_type_invariant(self);
        }
        self.power
    }

    /// The number of digits of the magnitude, the fractional ones included.
    pub fn digit_count(&self) -> (r: usize)
        ensures
            r == digit_count(abs(self@.num)),
    {
        proof {
            use_type_invariant(self);
            lemma_digit_count(self.abs@);
        }
        self.abs.len()
    }

    /// Whether `n1` and `n2`, brought to their common scale, are short
    /// enough to be added or subtracted.
    pub fn can_add(n1: &BigNum, n2: &BigNum) -> (r: bool)
        ensures
            r == add_fits(n1@, n2@),
    {
        let s = if n1.power < n2.power {
            n2.power
        } else {
            n1.power
        };
        let l1: u128 = n1.digit_count() as u128 + (s - n1.power) as u128;
        let l2: u128 = n2.digit_count() as u128 + (s - n2.power) as u128;
        l1 < usize::MAX as u128 && l2 < usize::MAX as u128
    }

    /// Whether the product of `n1` and `n2` can be held.
    pub fn can_mul(n1: &BigNum, n2: &BigNum) -> (r: bool)
        ensures
            r == mul_fits(n1@, n2@),
    {
        let digits: u128 = n1.digit_count() as u128 + n2.digit_count() as u128;
        let scale: u64 = n1.power as u64 + n2.power as u64;
        digits < usize::MAX as u128 && scale <= u32::MAX as u64
    }

    /// Whether this number divided by `10^k` can be held; `k` may be
    /// negative.
    pub fn can_shift(&self, k: i128) -> (r: bool)
        ensures
            r == shift_fits(self@, k as int),
    {
        let scale: i128 = self.power as i128;
        if k >= -scale {
            k <= u32::MAX as i128 - scale
        } else {
            // the scale is used up, and -(scale + k) zeros are put below
            // the digits
            let room: u128 = usize::MAX as u128 - self.digit_count() as u128;
            k >= -(room as i128) - scale
        }
    }

    /// Whether the quotient of `n1` by `n2` can be computed and held.
    pub fn can_div(n1: &BigNum, n2: &BigNum) -> (r: bool)
        ensures
            r == div_fits(n1@, n2@),
    {
        match n2.magnitude_exponent() {
            Some(k) => n1.can_shift(k as i128 - n2.power as i128),
            None => {
                let p: u64 = if n1.power as u64 >= n2.power as u64 + FLOAT_PRECISION as u64 {
                    n1.power as u64 - n2.power as u64
                } else {
                    FLOAT_PRECISION as u64
                };
                let e: u64 = p + n2.power as u64 - n1.power as u64;
                let l1: u128 = n1.digit_count() as u128 + e as u128 + 2;
                let l2: u128 = n2.digit_count() as u128 + 2;
                l1 < usize::MAX as u128 && l2 < usize::MAX as u128
            },
        }
    }

    /// Whether `num` and `denom`, brought to their common scale, are short
    /// enough for a Euclidean division.
    pub fn can_divide_whole(num: &BigNum, denom: &BigNum) -> (r: bool)
        ensures
            r == euclid_fits(num@, denom@),
    {
        let s = if num.power < denom.power {
            denom.power
        } else {
            num.power
        };
        let l1: u128 = num.digit_count() as u128 + (s - num.power) as u128 + 2;
        let l2: u128 = denom.digit_count() as u128 + (s - denom.power) as u128 + 2;
        l1 < usize::MAX as u128 && l2 < usize::MAX as u128
    }

    /// Whether the number is below zero.
    pub fn is_negative(&self) -> (r: bool)
        ensures
            r == (self@.num < 0),
    {
        proof {
            use_type_invariant(self);
        }
        self.negative
    }

    /// Whether the number is zero.
    pub fn is_zero(&self) -> (r: bool)
        ensures
            r == (self@.num == 0),
    {
        proof {
            use_type_invariant(self);
            if self.abs.len() == 1 {
                lemma_value_single(self.abs@);
            } else {
                lemma_value_lower(self.abs@);
                lemma_pow10_positive((self.abs.len() - 1) as nat);
            }
        }
        self.abs.len() == 1 && self.abs[0] == 0
    }

    /// The digits of this number when it is written at the scale `n`, which
    /// is at least its own.
    fn with_power(&self, n: u32) -> (w: Vec<u8>)
        requires
            n >= self.power,
            self.abs.len() + (n - self.power) <= usize::MAX,
        ensures
            w@ == Seq::new((n - self.power) as nat, |i: int| 0u8) + self.abs@,
            is_digits(w@),
            value(w@) == abs(lift(self@, n as nat)),
            signed(self.negative, value(w@)) == lift(self@, n as nat),
    {
        proof {
            use_type_invariant(self);
            let v = value(self.abs@) as int;
            let p = pow10((n - self.power) as nat) as int;
            lemma_pow10_positive((n - self.power) as nat);
            assert((-v) * p == -(v * p)) by (nonlinear_arith);
            assert(v * p >= 0) by (nonlinear_arith)
                requires
                    v >= 0,
                    p >= 0,
            ;
        }
        padded(&self.abs, (n - self.power) as usize)
    }

    /// Both numbers written at the larger of their scales: their digits
    /// and that scale.
    fn same_power(n1: &BigNum, n2: &BigNum) -> (r: (Vec<u8>, Vec<u8>, u32))
        requires
            add_fits(n1@, n2@),
        ensures
            r.2 == max_scale(n1@.scale, n2@.scale),
            is_digits(r.0@),
            is_digits(r.1@),
            r.0.len() < usize::MAX,
            r.1.len() < usize::MAX,
            signed(n1.negative, value(r.0@)) == lift(n1@, r.2 as nat),
            signed(n2.negative, value(r.1@)) == lift(n2@, r.2 as nat),
    {
        proof {
            use_type_invariant(n1);
            use_type_invariant(n2);
            lemma_digit_count(n1.abs@);
            lemma_digit_count(n2.abs@);
        }
        let s = if n1.power < n2.power {
            n2.power
        } else {
            n1.power
        };
        (n1.with_power(s), n2.with_power(s), s)
    }

    /// How the magnitudes compare: `-1` when that of `n1` is the smaller,
    /// `0` when they are equal, `1` when that of `n1` is the larger.
    fn magnitude_order(n1: &BigNum, n2: &BigNum) -> (r: i8)
        ensures
            -1 <= r <= 1,
            r == -1 <==> abs(lift(n1@, max_scale(n1@.scale, n2@.scale))) < abs(
                lift(n2@, max_scale(n1@.scale, n2@.scale)),
            ),
            r == 1 <==> abs(lift(n1@, max_scale(n1@.scale, n2@.scale))) > abs(
                lift(n2@, max_scale(n1@.scale, n2@.scale)),
            ),
    {
        proof {
            use_type_invariant(n1);
            use_type_invariant(n2);
            let s = max_scale(n1@.scale, n2@.scale);
            lemma_abs_lift(n1.negative, n1.abs@, (s - n1.power) as nat);
            lemma_abs_lift(n2.negative, n2.abs@, (s - n2.power) as nat);
            lemma_lowest_digit(n1.abs@);
            lemma_lowest_digit(n2.abs@);
        }
        aligned_order(&n1.abs, n1.power, &n2.abs, n2.power)
    }

    /// Whether both numbers are the same.
    fn are_equal(n1: &BigNum, n2: &BigNum) -> (r: bool)
        ensures
            r == (n1@ == n2@),
    {
        proof {
            use_type_invariant(n1);
            use_type_invariant(n2);
            if n1@ == n2@ {
                lemma_canonical_unique(n1.abs@, n2.abs@);
            }
        }
        n1.negative == n2.negative && n1.power == n2.power && same_digits(&n1.abs, &n2.abs)
    }

    /// Whether `n1` is below `n2`.
    fn is_lower(n1: &BigNum, n2: &BigNum) -> (r: bool)
        ensures
            r == dec_lt(n1@, n2@),
    {
        let ghost s = max_scale(n1@.scale, n2@.scale);
        proof {
            use_type_invariant(n1);
            use_type_invariant(n2);
            let pa = pow10((s - n1@.scale) as nat) as int;
            let pb = pow10((s - n2@.scale) as nat) as int;
            lemma_pow10_positive((s - n1@.scale) as nat);
            lemma_pow10_positive((s - n2@.scale) as nat);
            let a = n1@.num;
            let b = n2@.num;
            assert((a < 0 ==> a * pa < 0) && (a >= 0 ==> a * pa >= 0)) by (nonlinear_arith)
                requires
                    pa >= 1,
            ;
            assert((b < 0 ==> b * pb < 0) && (b >= 0 ==> b * pb >= 0)) by (nonlinear_arith)
                requires
                    pb >= 1,
            ;
        }
        if n1.negative != n2.negative {
            return n1.negative;
        }
        let order = BigNum::magnitude_order(n1, n2);
        if n1.negative {
            order == 1
        } else {
            order == -1
        }
    }

    /// Whether `n1` is above `n2`: neither equal to it nor below it.
    fn is_greater(n1: &BigNum, n2: &BigNum) -> (r: bool)
        ensures
            r == dec_lt(n2@, n1@),
            r == (n1@ != n2@ && !dec_lt(n1@, n2@)),
    {
        proof {
            use_type_invariant(n1);
            use_type_invariant(n2);
            let s = max_scale(n1@.scale, n2@.scale);
            if lift(n1@, s) == lift(n2@, s) {
                lemma_normal_unique(n1@, n2@, s);
            }
        }
        !BigNum::are_equal(n1, n2) && !BigNum::is_lower(n1, n2)
    }

    /// A copy of this number.
    pub fn duplicate(&self) -> (r: BigNum)
        ensures
            r@ == self@,
    {
        proof {
            use_type_invariant(self);
        }
        BigNum { negative: self.negative, abs: copy_digits(&self.abs), power: self.power }
    }

    /// The opposite of this number; zero is its own opposite.
    pub fn opposite(&self) -> (r: BigNum)
        ensures
            r@ == dec_neg(self@),
    {
        proof {
            use_type_invariant(self);
        }
        if self.is_zero() {
            return self.duplicate();
        }
        BigNum { negative: !self.negative, abs: copy_digits(&self.abs), power: self.power }
    }

    /// The sum of two numbers of one sign.
    fn inner_add(n1: &BigNum, n2: &BigNum) -> (r: BigNum)
        requires
            n1.negative == n2.negative,
            add_fits(n1@, n2@),
        ensures
            r@ == dec_add(n1@, n2@),
    {
        let (a, b, s) = BigNum::same_power(n1, n2);
        let sum = ub_add(a, b);
        BigNum::clean(n1.negative, sum, s)
    }

    /// The difference of two numbers that are not negative, the first of
    /// them not below the second.
    fn inner_sub(n1: &BigNum, n2: &BigNum) -> (r: BigNum)
        requires
            !n1.negative,
            !n2.negative,
            !dec_lt(n1@, n2@),
            add_fits(n1@, n2@),
        ensures
            r@ == normalize(
                Decimal {
                    num: lift(n1@, max_scale(n1@.scale, n2@.scale)) - lift(
                        n2@,
                        max_scale(n1@.scale, n2@.scale),
                    ),
                    scale: max_scale(n1@.scale, n2@.scale),
                },
            ),
    {
        let (a, b, s) = BigNum::same_power(n1, n2);
        let diff = sub_cleaned(&a, &b);
        BigNum::clean(false, diff, s)
    }

    /// The sum of two numbers.
    pub fn bn_add(n1: &BigNum, n2: &BigNum) -> (r: BigNum)
        requires
            add_fits(n1@, n2@),
        ensures
            r@ == dec_add(n1@, n2@),
    {
        let ghost s = max_scale(n1@.scale, n2@.scale);
        proof {
            use_type_invariant(n1);
            use_type_invariant(n2);
        }
        if n1.negative == n2.negative {
            return BigNum::inner_add(n1, n2);
        }
        // signs differ: subtract the magnitudes, the smaller from the larger
        let pos1 = if n1.negative {
            n1.opposite()
        } else {
            n1.duplicate()
        };
        let pos2 = if n2.negative {
            n2.opposite()
        } else {
            n2.duplicate()
        };
        proof {
            use_type_invariant(&pos1);
            use_type_invariant(&pos2);
            let k1 = pow10((s - n1@.scale) as nat) as int;
            let k2 = pow10((s - n2@.scale) as nat) as int;
            assert((-n1@.num) * k1 == -(n1@.num * k1)) by (nonlinear_arith);
            assert((-n2@.num) * k2 == -(n2@.num * k2)) by (nonlinear_arith);
        }
        let diff = if BigNum::is_lower(&pos1, &pos2) {
            let d = BigNum::inner_sub(&pos2, &pos1);
            if n2.negative {
                d.opposite()
            } else {
                d
            }
        } else {
            let d = BigNum::inner_sub(&pos1, &pos2);
            if n1.negative {
                d.opposite()
            } else {
                d
            }
        };
        proof {
            let x = lift(n1@, s) + lift(n2@, s);
            lemma_normalize_neg(Decimal { num: -x, scale: s });
            assert(dec_neg(Decimal { num: -x, scale: s }) == Decimal { num: x, scale: s });
        }
        diff
    }

    /// The difference of two numbers.
    pub fn bn_sub(n1: &BigNum, n2: &BigNum) -> (r: BigNum)
        requires
            add_fits(n1@, n2@),
        ensures
            r@ == dec_sub(n1@, n2@),
    {
        let m = n2.opposite();
        BigNum::bn_add(n1, &m)
    }

    /// The product of two numbers.
    pub fn bn_mul(n1: &BigNum, n2: &BigNum) -> (r: BigNum)
        requires
            mul_fits(n1@, n2@),
        ensures
            r@ == dec_mul(n1@, n2@),
    {
        proof {
            use_type_invariant(n1);
            use_type_invariant(n2);
            lemma_digit_count(n1.abs@);
            lemma_digit_count(n2.abs@);
            let a = value(n1.abs@) as int;
            let b = value(n2.abs@) as int;
            assert((-a) * b == -(a * b) && a * (-b) == -(a * b) && (-a) * (-b) == a * b)
                by (nonlinear_arith);
            assert(a * b >= 0) by (nonlinear_arith)
                requires
                    a >= 0,
                    b >= 0,
            ;
        }
        let sign = n1.negative != n2.negative;
        let product = ub_mul(&n1.abs, &n2.abs);
        BigNum::clean(sign, product, n1.power + n2.power)
    }

    /// The exponent of the magnitude when it is a power of ten.
    fn magnitude_exponent(&self) -> (r: Option<usize>)
        ensures
            match r {
                Some(k) => pow10_exponent(abs(self@.num)) == Some(k as nat),
                None => pow10_exponent(abs(self@.num)) is None,
            },
    {
        proof {
            use_type_invariant(self);
            let n = value(self.abs@);
            if is_one_then_zeros(self.abs@) {
                lemma_one_then_zeros_value(self.abs@);
                lemma_pow10_exponent((self.abs.len() - 1) as nat);
            } else if pow10_exponent(n) is Some {
                lemma_pow10_exponent_sound(n);
                lemma_power_of_ten_digits(self.abs@, pow10_exponent(n).unwrap());
            }
        }
        is_power_of_ten(&self.abs)
    }

    /// When the number is `10^x` or `-10^x`, the exponent `x`, which is
    /// negative for a number below one in magnitude.
    pub fn is_power_of_ten(&self) -> (r: Option<isize>)
        requires
            exponent_fits(self@),
        ensures
            match pow10_exponent(abs(self@.num)) {
                Some(k) => r == Some((k - self@.scale) as isize),
                None => r is None,
            },
    {
        proof {
            use_type_invariant(self);
            lemma_digit_count(self.abs@);
        }
        match self.magnitude_exponent() {
            Some(k) => Some((k as isize) - (self.power as isize)),
            None => None,
        }
    }

    /// This number divided by `10^(up - down)`, and negated when `negate`
    /// is set.
    fn shift_by(&self, up: usize, down: usize, negate: bool) -> (r: BigNum)
        requires
            shift_fits(self@, up - down),
        ensures
            r@ == dec_shift(self@, up - down, negate),
    {
        proof {
            use_type_invariant(self);
            lemma_digit_count(self.abs@);
        }
        let sign = self.negative != negate;
        let high: u128 = self.power as u128 + up as u128;
        let low: u128 = down as u128;
        if high >= low {
            BigNum::clean(sign, copy_digits(&self.abs), (high - low) as u32)
        } else {
            let k = (low - high) as usize;
            let digits = padded(&self.abs, k);
            proof {
                let v = value(self.abs@) as int;
                let p = pow10(k as nat) as int;
                assert((-v) * p == -(v * p)) by (nonlinear_arith);
            }
            BigNum::clean(sign, digits, 0)
        }
    }

    /// This number times `10^power`, or times `-10^power` when
    /// `pow_negative` is set. The result is exact.
    pub fn bn_tenpow_mul(&self, power: usize, pow_negative: bool) -> (r: BigNum)
        requires
            shift_fits(self@, -(power as int)),
        ensures
            r@ == dec_shift(self@, -(power as int), pow_negative),
    {
        self.shift_by(0, power, pow_negative)
    }

    /// This number divided by `10^power`, or by `-10^power` when
    /// `pow_negative` is set; `power` may be negative. The result is exact.
    pub fn bn_tenpow_div(&self, power: isize, pow_negative: bool) -> (r: BigNum)
        requires
            shift_fits(self@, power as int),
        ensures
            r@ == dec_shift(self@, power as int, pow_negative),
    {
        if power >= 0 {
            self.shift_by(power as usize, 0, pow_negative)
        } else {
            let down = ((-(power + 1)) as usize) + 1;
            self.shift_by(0, down, pow_negative)
        }
    }

    /// The quotient of `n1` by a nonzero `n2`.
    pub(crate) fn quotient(n1: &BigNum, n2: &BigNum) -> (r: BigNum)
        requires
            n2@.num != 0,
            div_fits(n1@, n2@),
        ensures
            r@ == dec_div(n1@, n2@),
    {
        proof {
            use_type_invariant(n1);
            use_type_invariant(n2);
            lemma_digit_count(n1.abs@);
            lemma_digit_count(n2.abs@);
        }
        match n2.magnitude_exponent() {
            Some(k) => {
                return n1.shift_by(k, n2.power as usize, n2.negative);
            },
            None => {},
        }
        let sign = n1.negative != n2.negative;
        // the scale of the quotient, and the zeros that bring n1 to it
        let p: u32 = if n1.power as u64 >= n2.power as u64 + FLOAT_PRECISION as u64 {
            n1.power - n2.power
        } else {
            FLOAT_PRECISION
        };
        let e = (p as u64 + n2.power as u64 - n1.power as u64) as usize;
        let a = padded(&n1.abs, e);
        let ghost av = value(a@) as int;
        let ghost bv = value(n2.abs@) as int;
        let digits = if n2.abs.len() == 1 {
            proof {
                lemma_value_single(n2.abs@);
            }
            let (q, rem) = shortdiv_nonzero(&a, n2.abs[0]);
            proof {
                lemma_fundamental_div_mod_converse(av, bv, value(q@) as int, rem as int);
            }
            q
        } else {
            let (q, rem) = div_nonzero(&a, &n2.abs);
            proof {
                lemma_fundamental_div_mod_converse(av, bv, value(q@) as int, value(rem@) as int);
            }
            q
        };
        proof {
            let qv = value(digits@) as int;
            assert(qv == av / bv);
            assert((-1) * qv == -qv && 1 * qv == qv) by (nonlinear_arith);
        }
        BigNum::clean(sign, digits, p)
    }

    /// The quotient of `n1` by `n2`, or `DivisionByZero` when `n2` is zero.
    /// Division by a power of ten is exact; any other quotient is cut,
    /// without rounding, at `FLOAT_PRECISION` fractional digits, or at the
    /// difference of the operands' scales where that is larger.
    pub fn bn_div(n1: &BigNum, n2: &BigNum) -> (r: Result<BigNum, NumError>)
        requires
            n2@.num != 0 ==> div_fits(n1@, n2@),
        ensures
            match r {
                Ok(q) => n2@.num != 0 && q@ == dec_div(n1@, n2@),
                Err(e) => n2@.num == 0 && e == NumError::DivisionByZero,
            },
    {
        if n2.is_zero() {
            return Err(NumError::DivisionByZero);
        }
        Ok(BigNum::quotient(n1, n2))
    }

    /// The whole quotient and the remainder of `num` by `denom`:
    /// `num == quotient * denom + remainder` with the remainder at least
    /// zero and below `denom`. Fails with `DivisionByZero` when `denom` is
    /// zero, else with `NegativeOperand` when either operand is negative.
    pub fn euclidian(num: &BigNum, denom: &BigNum) -> (r: Result<(BigNum, BigNum), NumError>)
        requires
            num@.num >= 0 && denom@.num > 0 ==> euclid_fits(num@, denom@),
        ensures
            match r {
                Ok((q, rem)) => {
                    &&& num@.num >= 0
                    &&& denom@.num > 0
                    &&& q@ == euclid_quotient(num@, denom@)
                    &&& rem@ == euclid_remainder(num@, denom@)
                },
                Err(e) => if denom@.num == 0 {
                    e == NumError::DivisionByZero
                } else {
                    (num@.num < 0 || denom@.num < 0) && e == NumError::NegativeOperand
                },
            },
    {
        if denom.is_zero() {
            return Err(NumError::DivisionByZero);
        }
        if num.is_negative() || denom.is_negative() {
            return Err(NumError::NegativeOperand);
        }
        proof {
            use_type_invariant(num);
            use_type_invariant(denom);
            lemma_digit_count(num.abs@);
            lemma_digit_count(denom.abs@);
        }
        let s = if num.power < denom.power {
            denom.power
        } else {
            num.power
        };
        let a = num.with_power(s);
        let b = denom.with_power(s);
        proof {
            let dv = denom@.num;
            let pk = pow10((s - denom.power) as nat) as int;
            lemma_pow10_positive((s - denom.power) as nat);
            assert(dv * pk > 0) by (nonlinear_arith)
                requires
                    dv > 0,
                    pk >= 1,
            ;
        }
        let (q, rem) = div_nonzero(&a, &b);
        proof {
            lemma_fundamental_div_mod_converse(
                value(a@) as int,
                value(b@) as int,
                value(q@) as int,
                value(rem@) as int,
            );
        }
        Ok((BigNum::clean(false, q, 0), BigNum::clean(false, rem, s)))
    }

    /// `n` to the power `p`, by repeated squaring. A negative exponent
    /// divides by `n`, which then must not be zero.
    pub fn bn_pow(n: &BigNum, p: i32) -> (r: BigNum)
        requires
            p < 0 ==> n@.num != 0,
            pow_fits(n@, p as int),
        ensures
            r@ == dec_pow(n@, p as int),
        decreases abs(p as int),
    {
        if p == 0 {
            return BigNum::one();
        }
        if p == 1 {
            return n.duplicate();
        }
        let wide = p as i64;
        let h: i64 = if wide >= 0 {
            wide / 2
        } else {
            -((-wide) / 2)
        };
        let odd = if wide >= 0 {
            wide % 2 == 1
        } else {
            (-wide) % 2 == 1
        };
        let temp = BigNum::bn_pow(n, h as i32);
        let square = BigNum::bn_mul(&temp, &temp);
        if !odd {
            square
        } else if p > 0 {
            BigNum::bn_mul(&square, n)
        } else {
            BigNum::quotient(&square, n)
        }
    }

    /// `bn_pow(n, p)` where it can be computed: `None` when a product or a
    /// quotient on the way cannot be held, or when zero is raised to a
    /// negative power.
    pub fn bn_pow_checked(n: &BigNum, p: i32) -> (r: Option<BigNum>)
        ensures
            match r {
                Some(x) => {
                    &&& pow_fits(n@, p as int)
                    &&& p < 0 ==> n@.num != 0
                    &&& x@ == dec_pow(n@, p as int)
                },
                None => !pow_fits(n@, p as int) || (p < 0 && n@.num == 0),
            },
        decreases abs(p as int),
    {
        if p < 0 && n.is_zero() {
            return None;
        }
        if p == 0 {
            return Some(BigNum::one());
        }
        if p == 1 {
            return Some(n.duplicate());
        }
        let wide = p as i64;
        let h: i64 = if wide >= 0 {
            wide / 2
        } else {
            -((-wide) / 2)
        };
        let odd = if wide >= 0 {
            wide % 2 == 1
        } else {
            (-wide) % 2 == 1
        };
        let temp = match BigNum::bn_pow_checked(n, h as i32) {
            Some(t) => t,
            None => {
                return None;
            },
        };
        if !BigNum::can_mul(&temp, &temp) {
            return None;
        }
        let square = BigNum::bn_mul(&temp, &temp);
        if !odd {
            Some(square)
        } else if p > 0 {
            if !BigNum::can_mul(&square, n) {
                return None;
            }
            Some(BigNum::bn_mul(&square, n))
        } else {
            if !BigNum::can_div(&square, n) {
                return None;
            }
            Some(BigNum::quotient(&square, n))
        }
    }
}

impl Clone for BigNum {
    fn clone(&self) -> (r: BigNum)
        ensures
            r@ == self@,
    {
        self.duplicate()
    }
}

impl PartialEq for BigNum {
    fn eq(&self, other: &BigNum) -> (r: bool) {
        BigNum::are_equal(self, other)
    }
}

impl PartialEqSpecImpl for BigNum {
    open spec fn obeys_eq_spec() -> bool {
        true
    }

    open spec fn eq_spec(&self, other: &BigNum) -> bool {
        self@ == other@
    }
}

impl PartialOrd for BigNum {
    fn partial_cmp(&self, other: &BigNum) -> (r: Option<Ordering>) {
        if BigNum::are_equal(self, other) {
            Some(Ordering::Equal)
        } else if BigNum::is_lower(self, other) {
            Some(Ordering::Less)
        } else {
            Some(Ordering::Greater)
        }
    }

    fn lt(&self, other: &BigNum) -> (r: bool) {
        BigNum::is_lower(self, other)
    }

    fn le(&self, other: &BigNum) -> (r: bool) {
        !BigNum::is_greater(self, other)
    }

    fn gt(&self, other: &BigNum) -> (r: bool) {
        BigNum::is_greater(self, other)
    }

    fn ge(&self, other: &BigNum) -> (r: bool) {
        !BigNum::is_lower(self, other)
    }
}

impl PartialOrdSpecImpl for BigNum {
    open spec fn obeys_partial_cmp_spec() -> bool {
        true
    }

    open spec fn partial_cmp_spec(&self, other: &BigNum) -> Option<Ordering> {
        if self@ == other@ {
            Some(Ordering::Equal)
        } else if dec_lt(self@, other@) {
            Some(Ordering::Less)
        } else {
            Some(Ordering::Greater)
        }
    }
}

} // verus!
