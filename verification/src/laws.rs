//! The algebra of the decimal operations, proved over the model that the
//! executable functions are specified by.

use vstd::prelude::*;
use vstd::arithmetic::div_mod::{lemma_fundamental_div_mod, lemma_mod_bound};
use vstd::arithmetic::power::{lemma_pow0, lemma_pow1, lemma_pow_adds, pow};
use crate::decimal::{
    abs, dec_add, dec_div, dec_lt, dec_mul, dec_neg, dec_one, dec_pow, dec_shift, dec_sub,
    dec_zero, euclid_quotient, euclid_remainder, half, is_normal, lemma_pow10_exponent_sound,
    pow10_exponent, quotient_scale, same_value, sign_factor,
    lemma_lift_more, lemma_normal_unique, lemma_normalize, lemma_normalize_normal,
    lemma_pow10_exponent, lift, max_scale, normalize, raw_add, raw_mul, signed, Decimal,
};
use crate::magnitude::{
    digits_of, lemma_digits_of, lemma_pow10_add, lemma_pow10_positive, lemma_value_split, pow10,
    value,
};
use crate::text::{
    body_ok, body_scale, body_value, format_spec, fraction_chars, is_body_char,
    lemma_fraction_chars, lemma_whole_chars, lemma_without_absent, parse_spec, whole_chars,
};

verus! {

/// At a scale that fits both operands, the sum lifts to the sum of what
/// the operands lift to.
pub proof fn lemma_lift_add(a: Decimal, b: Decimal, s: nat)
    requires
        s >= a.scale,
        s >= b.scale,
    ensures
        dec_add(a, b).scale <= s,
        is_normal(dec_add(a, b)),
        lift(dec_add(a, b), s) == lift(a, s) + lift(b, s),
{
    let m = max_scale(a.scale, b.scale);
    let k = (s - m) as nat;
    lemma_normalize(raw_add(a, b), s);
    lemma_lift_more(a, m, k);
    lemma_lift_more(b, m, k);
    let x = lift(a, m);
    let y = lift(b, m);
    let p = pow10(k) as int;
    assert((x + y) * p == x * p + y * p) by (nonlinear_arith);
}

/// At the sum of two scales that fit the operands, the product lifts to
/// the product of what the operands lift to.
pub proof fn lemma_lift_mul(a: Decimal, b: Decimal, s: nat, t: nat)
    requires
        s >= a.scale,
        t >= b.scale,
    ensures
        dec_mul(a, b).scale <= s + t,
        is_normal(dec_mul(a, b)),
        lift(dec_mul(a, b), s + t) == lift(a, s) * lift(b, t),
{
    lemma_normalize(raw_mul(a, b), s + t);
    let i = (s - a.scale) as nat;
    let j = (t - b.scale) as nat;
    lemma_pow10_add(i, j);
    assert(s + t - (a.scale + b.scale) == i + j);
    let p = pow10(i) as int;
    let q = pow10(j) as int;
    assert((a.num * b.num) * (p * q) == (a.num * p) * (b.num * q)) by (nonlinear_arith);
}

/// The opposite lifts to the opposite.
pub proof fn lemma_lift_neg(a: Decimal, s: nat)
    requires
        s >= a.scale,
    ensures
        lift(dec_neg(a), s) == -lift(a, s),
{
    let p = pow10((s - a.scale) as nat) as int;
    assert((-a.num) * p == -(a.num * p)) by (nonlinear_arith);
}

/// Bringing a decimal to lowest terms keeps the number it denotes.
pub proof fn law_normalize_keeps_value(d: Decimal)
    ensures
        is_normal(normalize(d)),
        same_value(normalize(d), d),
{
    lemma_normalize(d, d.scale);
}

/// In lowest terms a number has one form only: two decimals in lowest
/// terms that denote the same number are equal.
pub proof fn law_lowest_terms_unique(a: Decimal, b: Decimal)
    requires
        is_normal(a),
        is_normal(b),
        same_value(a, b),
    ensures
        a == b,
{
    lemma_normal_unique(a, b, max_scale(a.scale, b.scale));
}

/// Addition is commutative: `a + b == b + a`.
pub proof fn law_add_commutative(a: Decimal, b: Decimal)
    ensures
        dec_add(a, b) == dec_add(b, a),
{
}

/// Multiplication is commutative: `a * b == b * a`.
pub proof fn law_mul_commutative(a: Decimal, b: Decimal)
    ensures
        dec_mul(a, b) == dec_mul(b, a),
{
    assert(a.num * b.num == b.num * a.num) by (nonlinear_arith);
}

/// Addition is associative: `(a + b) + c == a + (b + c)`.
pub proof fn law_add_associative(a: Decimal, b: Decimal, c: Decimal)
    ensures
        dec_add(dec_add(a, b), c) == dec_add(a, dec_add(b, c)),
{
    let s = max_scale(max_scale(a.scale, b.scale), c.scale);
    lemma_lift_add(a, b, s);
    lemma_lift_add(b, c, s);
    lemma_lift_add(dec_add(a, b), c, s);
    lemma_lift_add(a, dec_add(b, c), s);
    lemma_normal_unique(dec_add(dec_add(a, b), c), dec_add(a, dec_add(b, c)), s);
}

/// Subtraction associates with addition: `(a + b) - c == a + (b - c)`.
pub proof fn law_add_sub_associative(a: Decimal, b: Decimal, c: Decimal)
    ensures
        dec_sub(dec_add(a, b), c) == dec_add(a, dec_sub(b, c)),
{
    law_add_associative(a, b, dec_neg(c));
}

/// Subtracting twice subtracts the sum: `(a - b) - c == a - (b + c)`.
pub proof fn law_sub_associative(a: Decimal, b: Decimal, c: Decimal)
    ensures
        dec_sub(dec_sub(a, b), c) == dec_sub(a, dec_add(b, c)),
{
    let s = max_scale(max_scale(a.scale, b.scale), c.scale);
    lemma_lift_neg(b, s);
    lemma_lift_neg(c, s);
    lemma_lift_add(a, dec_neg(b), s);
    lemma_lift_add(dec_sub(a, b), dec_neg(c), s);
    lemma_lift_add(b, c, s);
    lemma_lift_neg(dec_add(b, c), s);
    lemma_lift_add(a, dec_neg(dec_add(b, c)), s);
    lemma_normal_unique(dec_sub(dec_sub(a, b), c), dec_sub(a, dec_add(b, c)), s);
}

/// Multiplication is associative: `(a * b) * c == a * (b * c)`.
pub proof fn law_mul_associative(a: Decimal, b: Decimal, c: Decimal)
    ensures
        dec_mul(dec_mul(a, b), c) == dec_mul(a, dec_mul(b, c)),
{
    let s = a.scale + b.scale + c.scale;
    lemma_lift_mul(a, b, a.scale, b.scale);
    lemma_lift_mul(dec_mul(a, b), c, a.scale + b.scale, c.scale);
    lemma_lift_mul(b, c, b.scale, c.scale);
    lemma_lift_mul(a, dec_mul(b, c), a.scale, b.scale + c.scale);
    assert(lift(a, a.scale) == a.num && lift(b, b.scale) == b.num && lift(c, c.scale) == c.num)
        by {
        assert(a.num * 1 == a.num && b.num * 1 == b.num && c.num * 1 == c.num)
            by (nonlinear_arith);
    }
    assert((a.num * b.num) * c.num == a.num * (b.num * c.num)) by (nonlinear_arith);
    lemma_normal_unique(dec_mul(dec_mul(a, b), c), dec_mul(a, dec_mul(b, c)), s);
}

/// Zero is the identity of addition: `a + 0 == a`.
pub proof fn law_add_identity(a: Decimal)
    requires
        is_normal(a),
    ensures
        dec_add(a, dec_zero()) == a,
{
    lemma_lift_add(a, dec_zero(), a.scale);
    assert(lift(dec_zero(), a.scale) == 0) by {
        assert(0 * pow10(a.scale) == 0) by (nonlinear_arith);
    }
    lemma_normal_unique(dec_add(a, dec_zero()), a, a.scale);
}

/// One is the identity of multiplication: `a * 1 == a`.
pub proof fn law_mul_identity(a: Decimal)
    requires
        is_normal(a),
    ensures
        dec_mul(a, dec_one()) == a,
{
    assert(a.num * 1 == a.num) by (nonlinear_arith);
    lemma_normalize_normal(a);
}

/// Subtraction undoes addition: `(a + b) - b == a`.
pub proof fn law_add_inverse(a: Decimal, b: Decimal)
    requires
        is_normal(a),
    ensures
        dec_sub(dec_add(a, b), b) == a,
{
    let s = max_scale(a.scale, b.scale);
    lemma_lift_add(a, b, s);
    lemma_lift_neg(b, s);
    lemma_lift_add(dec_add(a, b), dec_neg(b), s);
    lemma_normal_unique(dec_sub(dec_add(a, b), b), a, s);
}

/// A product is negative exactly when one factor is negative, the other
/// positive.
pub proof fn law_mul_sign(a: Decimal, b: Decimal)
    ensures
        dec_mul(a, b).num < 0 <==> ((a.num < 0) != (b.num < 0) && a.num != 0 && b.num != 0),
        dec_mul(a, b).num == 0 <==> (a.num == 0 || b.num == 0),
{
    lemma_normalize(raw_mul(a, b), a.scale + b.scale);
    let x = a.num;
    let y = b.num;
    assert((x * y < 0 <==> ((x < 0) != (y < 0) && x != 0 && y != 0)) && (x * y == 0 <==> (x == 0
        || y == 0))) by (nonlinear_arith);
}

/// A number minus itself is zero, which is not negative.
pub proof fn law_sub_self(a: Decimal)
    ensures
        dec_sub(a, a) == dec_zero(),
        !(dec_sub(a, a).num < 0),
{
    lemma_lift_neg(a, a.scale);
    lemma_lift_add(a, dec_neg(a), a.scale);
    assert(lift(dec_zero(), a.scale) == 0) by {
        assert(0 * pow10(a.scale) == 0) by (nonlinear_arith);
    }
    lemma_normal_unique(dec_sub(a, a), dec_zero(), a.scale);
}

/// Division by a power of ten is exact: the quotient of `a` by `10^k`,
/// multiplied by `10^k`, is `a` again.
pub proof fn law_div_power_of_ten_exact(a: Decimal, k: nat)
    requires
        is_normal(a),
    ensures
        dec_div(a, Decimal { num: pow10(k) as int, scale: 0 }) == normalize(
            Decimal { num: a.num, scale: a.scale + k },
        ),
        dec_mul(dec_div(a, Decimal { num: pow10(k) as int, scale: 0 }), Decimal {
            num: pow10(k) as int,
            scale: 0,
        }) == a,
{
    let b = Decimal { num: pow10(k) as int, scale: 0 };
    let raw = Decimal { num: a.num, scale: a.scale + k };
    lemma_pow10_exponent(k);
    lemma_pow10_positive(k);
    assert(dec_div(a, b) == normalize(raw));
    let t = a.scale + k;
    lemma_normalize(raw, t);
    lemma_lift_mul(normalize(raw), b, t, 0);
    lemma_lift_more(a, a.scale, k);
    assert(lift(raw, t) == a.num && lift(a, a.scale) == a.num && lift(b, 0) == b.num) by {
        assert(a.num * 1 == a.num && b.num * 1 == b.num) by (nonlinear_arith);
    }
    lemma_normal_unique(dec_mul(dec_div(a, b), b), a, t);
}

/// The quotient by any power of ten, of either sign and of any scale, is
/// exact: multiplied by the divisor it is the dividend again.
pub proof fn law_div_power_of_ten_inverts(a: Decimal, b: Decimal)
    requires
        is_normal(a),
        pow10_exponent(abs(b.num)) is Some,
    ensures
        dec_mul(dec_div(a, b), b) == a,
{
    let k = pow10_exponent(abs(b.num)).unwrap();
    lemma_pow10_exponent_sound(abs(b.num));
    let q = dec_div(a, b);
    assert(q == dec_shift(a, k as int - b.scale as int, b.num < 0));
    let num = if b.num < 0 {
        -a.num
    } else {
        a.num
    };
    let pk = pow10(k) as int;
    assert(num * b.num == a.num * pk) by (nonlinear_arith)
        requires
            b.num == pk || b.num == -pk,
            b.num < 0 <==> b.num == -pk,
            pk >= 0,
            num == (if b.num < 0 {
                -a.num
            } else {
                a.num
            }),
    ;
    assert(lift(b, b.scale) == b.num) by {
        assert(b.num * 1 == b.num) by (nonlinear_arith);
    }
    if a.scale + k >= b.scale {
        let t = (a.scale + k - b.scale) as nat;
        let raw = Decimal { num: num, scale: t };
        lemma_normalize(raw, t);
        lemma_lift_mul(q, b, t, b.scale);
        assert(lift(raw, t) == num) by {
            assert(num * 1 == num) by (nonlinear_arith);
        }
        assert(t + b.scale == a.scale + k);
        lemma_normal_unique(dec_mul(q, b), a, a.scale + k);
    } else {
        let e = (b.scale - k - a.scale) as nat;
        let raw = Decimal { num: num * pow10(e), scale: 0 };
        lemma_normalize(raw, 0);
        lemma_lift_mul(q, b, 0, b.scale);
        let pe = pow10(e) as int;
        assert(lift(raw, 0) == num * pe) by {
            assert((num * pe) * 1 == num * pe) by (nonlinear_arith);
        }
        lemma_pow10_add(e, k);
        assert(b.scale - a.scale == e + k);
        assert((num * pe) * b.num == a.num * (pe * pk)) by (nonlinear_arith)
            requires
                num * b.num == a.num * pk,
        ;
        lemma_normal_unique(dec_mul(q, b), a, b.scale);
    }
}

/// A quotient that is cut differs from the exact one by less than one
/// unit of its last kept digit: with `p` the scale of the cut,
/// `|a - q * b| < |b| * 10^(-p)`, written here at the scale `p + b.scale`.
pub proof fn law_div_error_bound(a: Decimal, b: Decimal)
    requires
        b.num != 0,
        pow10_exponent(abs(b.num)) is None,
    ensures
        dec_div(a, b).scale <= quotient_scale(a, b),
        abs(
            lift(a, quotient_scale(a, b) + b.scale) - lift(dec_div(a, b), quotient_scale(a, b))
                * b.num,
        ) < abs(b.num),
{
    let p = quotient_scale(a, b);
    let e = (p + b.scale - a.scale) as nat;
    let x = (abs(a.num) * pow10(e)) as int;
    let y = abs(b.num) as int;
    let sign = sign_factor(a.num, b.num);
    let raw = Decimal { num: sign * (x / y), scale: p };
    lemma_normalize(raw, p);
    assert(lift(raw, p) == sign * (x / y)) by {
        assert((sign * (x / y)) * 1 == sign * (x / y)) by (nonlinear_arith);
    }
    lemma_fundamental_div_mod(x, y);
    lemma_mod_bound(x, y);
    let pe = pow10(e) as int;
    let q = x / y;
    let r = x % y;
    let m = a.num * pe;
    assert((-a.num) * pe == -m) by (nonlinear_arith)
        requires
            m == a.num * pe,
    ;
    // x is |m| and y is |b.num|; in each of the four cases of the signs the
    // difference is the remainder or its opposite
    if (a.num < 0) == (b.num < 0) {
        assert(m - (1 * q) * b.num == r || m - (1 * q) * b.num == -r) by (nonlinear_arith)
            requires
                x == y * q + r,
                (x == m && y == b.num) || (x == -m && y == -b.num),
        ;
    } else {
        assert(m - ((-1) * q) * b.num == r || m - ((-1) * q) * b.num == -r)
            by (nonlinear_arith)
            requires
                x == y * q + r,
                (x == m && y == -b.num) || (x == -m && y == b.num),
        ;
    }
}

/// Two decimals are ordered as the numerators that they lift to at any
/// scale that fits both.
pub proof fn lemma_lt_at(a: Decimal, b: Decimal, s: nat)
    requires
        s >= a.scale,
        s >= b.scale,
    ensures
        dec_lt(a, b) <==> lift(a, s) < lift(b, s),
        lift(a, max_scale(a.scale, b.scale)) == lift(b, max_scale(a.scale, b.scale)) <==> lift(
            a,
            s,
        ) == lift(b, s),
{
    let m = max_scale(a.scale, b.scale);
    let k = (s - m) as nat;
    lemma_lift_more(a, m, k);
    lemma_lift_more(b, m, k);
    lemma_pow10_positive(k);
    let x = lift(a, m);
    let y = lift(b, m);
    let p = pow10(k) as int;
    assert((x < y <==> x * p < y * p) && (x == y <==> x * p == y * p)) by (nonlinear_arith)
        requires
            p >= 1,
    ;
}

/// The order is total: of two numbers in lowest terms, either they are
/// equal or exactly one is below the other.
pub proof fn law_order_total(a: Decimal, b: Decimal)
    requires
        is_normal(a),
        is_normal(b),
    ensures
        a == b || dec_lt(a, b) || dec_lt(b, a),
        !(dec_lt(a, b) && dec_lt(b, a)),
        a == b ==> !dec_lt(a, b),
{
    let s = max_scale(a.scale, b.scale);
    if lift(a, s) == lift(b, s) {
        lemma_normal_unique(a, b, s);
    }
}

/// The order is transitive.
pub proof fn law_order_transitive(a: Decimal, b: Decimal, c: Decimal)
    requires
        dec_lt(a, b),
        dec_lt(b, c),
    ensures
        dec_lt(a, c),
{
    let s = max_scale(max_scale(a.scale, b.scale), c.scale);
    lemma_lt_at(a, b, s);
    lemma_lt_at(b, c, s);
    lemma_lt_at(a, c, s);
}

/// A Euclidean division recomposes: `a == q * b + r`, with the remainder
/// `r` at least zero and below `b`.
pub proof fn law_euclid_recomposes(a: Decimal, b: Decimal)
    requires
        is_normal(a),
        a.num >= 0,
        b.num > 0,
    ensures
        dec_add(dec_mul(euclid_quotient(a, b), b), euclid_remainder(a, b)) == a,
        !dec_lt(euclid_remainder(a, b), dec_zero()),
        dec_lt(euclid_remainder(a, b), b),
{
    let s = max_scale(a.scale, b.scale);
    let n = lift(a, s);
    let d = lift(b, s);
    lemma_pow10_positive((s - b.scale) as nat);
    assert(d > 0) by (nonlinear_arith)
        requires
            d == b.num * pow10((s - b.scale) as nat),
            b.num > 0,
            pow10((s - b.scale) as nat) >= 1,
    ;
    lemma_fundamental_div_mod(n, d);
    lemma_mod_bound(n, d);
    let q = euclid_quotient(a, b);
    let r = euclid_remainder(a, b);
    let raw = Decimal { num: n % d, scale: s };
    lemma_normalize(raw, s);
    assert(lift(raw, s) == n % d && lift(q, 0) == n / d) by {
        assert((n % d) * 1 == n % d && (n / d) * 1 == n / d) by (nonlinear_arith);
    }
    lemma_lift_mul(q, b, 0, s);
    lemma_lift_add(dec_mul(q, b), r, s);
    assert((n / d) * d == d * (n / d)) by (nonlinear_arith);
    lemma_normal_unique(dec_add(dec_mul(q, b), r), a, s);
    lemma_lt_at(r, b, s);
    lemma_lt_at(r, dec_zero(), s);
    assert(lift(dec_zero(), s) == 0) by {
        assert(0 * pow10(s) == 0) by (nonlinear_arith);
    }
}

/// A power with an exponent that is not negative is the product of as
/// many factors: `a^p` is `a.num^p / 10^(a.scale * p)` in lowest terms.
pub proof fn law_pow_nonnegative(a: Decimal, p: nat)
    requires
        is_normal(a),
    ensures
        dec_pow(a, p as int) == normalize(
            Decimal { num: pow(a.num, p), scale: a.scale * p },
        ),
    decreases p,
{
    let target = Decimal { num: pow(a.num, p), scale: a.scale * p };
    lemma_pow0(a.num);
    lemma_pow1(a.num);
    if p == 0 {
        assert(a.scale * 0 == 0) by (nonlinear_arith);
    } else if p == 1 {
        assert(a.scale * 1 == a.scale) by (nonlinear_arith);
    } else {
        let h = (p / 2) as nat;
        assert(half(p as int) == h);
        law_pow_nonnegative(a, h);
        let sh = a.scale * h;
        let t = dec_pow(a, h as int);
        lemma_normalize(Decimal { num: pow(a.num, h), scale: sh }, sh);
        assert(lift(t, sh) == pow(a.num, h)) by {
            assert(pow(a.num, h) * 1 == pow(a.num, h)) by (nonlinear_arith);
        }
        let sq = dec_mul(t, t);
        lemma_lift_mul(t, t, sh, sh);
        lemma_pow_adds(a.num, h, h);
        lemma_normalize(target, a.scale * p);
        assert(lift(target, a.scale * p) == pow(a.num, p)) by {
            assert(pow(a.num, p) * 1 == pow(a.num, p)) by (nonlinear_arith);
        }
        if p % 2 == 0 {
            assert(h + h == p);
            assert(sh + sh == a.scale * p) by (nonlinear_arith)
                requires
                    sh == a.scale * h,
                    h + h == p,
            ;
            lemma_normal_unique(sq, normalize(target), a.scale * p);
        } else {
            assert(h + h + 1 == p);
            lemma_lift_mul(sq, a, sh + sh, a.scale);
            lemma_pow_adds(a.num, h + h, 1);
            assert(lift(a, a.scale) == a.num) by {
                assert(a.num * 1 == a.num) by (nonlinear_arith);
            }
            assert(sh + sh + a.scale == a.scale * p) by (nonlinear_arith)
                requires
                    sh == a.scale * h,
                    h + h + 1 == p,
            ;
            lemma_normal_unique(dec_mul(sq, a), normalize(target), a.scale * p);
        }
    }
}

/// A number in lowest terms is read back from its own text:
/// `parse(format(x)) == x`.
pub proof fn law_round_trip(x: Decimal)
    requires
        is_normal(x),
    ensures
        parse_spec(format_spec(x)) == Some(x),
{
    let ds = digits_of(abs(x.num));
    let sc = x.scale;
    lemma_digits_of(abs(x.num));
    let whole = whole_chars(ds, sc);
    let fraction = fraction_chars(ds, sc);
    let body = whole + fraction;
    lemma_whole_chars(ds, sc);
    if sc > 0 {
        lemma_fraction_chars(whole, ds, sc);
        if ds.len() > sc {
            lemma_value_split(ds, sc as int);
            assert(value(ds.skip(sc as int)) * pow10(sc) == pow10(sc) * value(ds.skip(sc as int)))
                by (nonlinear_arith);
        } else {
            assert(0 * pow10(sc) == 0) by (nonlinear_arith);
            assert(ds.take(ds.len() as int) =~= ds);
        }
    } else {
        assert(body =~= whole);
        assert(ds.skip(0) =~= ds);
    }
    assert(body_ok(body) && body_value(body) == abs(x.num) && body_scale(body) == sc);
    let sign = if x.num < 0 {
        seq!['-']
    } else {
        Seq::<char>::empty()
    };
    assert(format_spec(x) =~= sign + body);
    lemma_text_of_body(x.num < 0, body, format_spec(x));
}

/// A body behind its sign is read as that body with that sign.
proof fn lemma_text_of_body(negative: bool, body: Seq<char>, text: Seq<char>)
    requires
        body.len() >= 1,
        body_ok(body),
        forall|i: int| 0 <= i < body.len() ==> is_body_char(#[trigger] body[i]),
        text == (if negative {
            seq!['-']
        } else {
            Seq::<char>::empty()
        }) + body,
    ensures
        parse_spec(text) == Some(
            Decimal { num: signed(negative, body_value(body)), scale: body_scale(body) },
        ),
{
    assert forall|i: int| 0 <= i < text.len() implies text[i] != ' ' by {
        if negative {
            if i > 0 {
                assert(is_body_char(body[i - 1]));
            }
        } else {
            assert(is_body_char(body[i]));
        }
    }
    lemma_without_absent(text, ' ');
    if negative {
        assert(text.drop_first() =~= body);
    } else {
        assert(text =~= body);
        assert(is_body_char(body[0]));
    }
}

} // verus!
