//! Arithmetic on unsigned magnitudes held as `Vec<u8>`, least significant
//! digit first.

use vstd::prelude::*;
use crate::magnitude::{
    digit_at, is_canonical, is_digits, is_one_then_zeros, lemma_first_difference, lemma_len_bound,
    lemma_longer_is_larger, lemma_low_value_step, lemma_pow10_add,
    lemma_pow10_positive, lemma_trim, lemma_value_bound, lemma_value_cons, lemma_value_push,
    lemma_value_split, lemma_value_zero, low_value, pow10, trim, value,
};
use crate::error::NumError;

verus! {

/// Removes most-significant zeros in place, keeping one digit of a zero.
pub fn ub_clean(ubint: &mut Vec<u8>)
    ensures
        final(ubint)@ == trim(old(ubint)@),
{
    while ubint.len() > 1 && ubint[ubint.len() - 1] == 0
        invariant
            trim(ubint@) == trim(old(ubint)@),
        decreases ubint.len(),
    {
        proof {
            assert(ubint@.last() == 0);
        }
        ubint.pop();
    }
}

/// `ubint` without its most-significant zeros, keeping one digit of a zero.
pub fn ub_cleaned(ubint: Vec<u8>) -> (res: Vec<u8>)
    ensures
        res@ == trim(ubint@),
{
    let mut res = ubint;
    ub_clean(&mut res);
    res
}

/// The number of digits of `u` below its most-significant zeros: zero for
/// a magnitude that denotes zero.
fn significant_len(u: &Vec<u8>) -> (l: usize)
    ensures
        l <= u.len(),
        l > 0 ==> u[l - 1] != 0,
        forall|i: int| l <= i < u.len() ==> u[i] == 0,
        value(u@.take(l as int)) == value(u@),
{
    let mut l = u.len();
    while l > 0 && u[l - 1] == 0
        invariant
            l <= u.len(),
            forall|i: int| l <= i < u.len() ==> u[i] == 0,
        decreases l,
    {
        l -= 1;
    }
    proof {
        lemma_value_split(u@, l as int);
        lemma_value_zero(u@.skip(l as int));
        assert(pow10(l as nat) * value(u@.skip(l as int)) == 0) by (nonlinear_arith)
            requires
                value(u@.skip(l as int)) == 0,
        ;
    }
    l
}

/// Whether `u` denotes a smaller number than `v`.
pub fn ub_is_lower(u: &Vec<u8>, v: &Vec<u8>) -> (r: bool)
    requires
        is_digits(u@),
        is_digits(v@),
    ensures
        r == (value(u@) < value(v@)),
{
    let lu = significant_len(u);
    let lv = significant_len(v);
    let ghost a = u@.take(lu as int);
    let ghost b = v@.take(lv as int);
    if lu < lv {
        proof {
            lemma_longer_is_larger(a, b);
        }
        return true;
    }
    if lu > lv {
        proof {
            lemma_longer_is_larger(b, a);
        }
        return false;
    }
    let mut i = lu;
    while i > 0
        invariant
            i <= lu,
            lu == lv,
            lu <= u.len(),
            lv <= v.len(),
            a == u@.take(lu as int),
            b == v@.take(lv as int),
            is_digits(a),
            is_digits(b),
            value(a) == value(u@),
            value(b) == value(v@),
            forall|k: int| i <= k < lu ==> u[k] == v[k],
        decreases i,
    {
        i -= 1;
        if u[i] < v[i] {
            proof {
                lemma_first_difference(a, b, i as int);
            }
            return true;
        }
        if u[i] > v[i] {
            proof {
                lemma_first_difference(b, a, i as int);
            }
            return false;
        }
    }
    proof {
        assert(a =~= b);
    }
    false
}

/// The digit of `u` at position `i`, zero beyond its end.
fn digit_or_zero(u: &Vec<u8>, i: usize) -> (d: u8)
    ensures
        d == digit_at(u@, i as int),
{
    if i < u.len() {
        u[i]
    } else {
        0
    }
}

/// The sum of `u` and `v`, in canonical form.
pub fn ub_add(u: Vec<u8>, v: Vec<u8>) -> (w: Vec<u8>)
    requires
        is_digits(u@),
        is_digits(v@),
        u.len() < usize::MAX,
        v.len() < usize::MAX,
    ensures
        is_canonical(w@),
        value(w@) == value(u@) + value(v@),
{
    let m = if u.len() < v.len() {
        v.len()
    } else {
        u.len()
    };
    let mut w: Vec<u8> = Vec::new();
    let mut k: u8 = 0;
    let mut i: usize = 0;
    proof {
        lemma_low_value_step(u@, 0);
        lemma_low_value_step(v@, 0);
    }
    while i < m
        invariant
            i <= m,
            m >= u.len(),
            m >= v.len(),
            w.len() == i,
            k <= 1,
            is_digits(u@),
            is_digits(v@),
            is_digits(w@),
            value(w@) + k * pow10(i as nat) == low_value(u@, i as int) + low_value(v@, i as int),
        decreases m - i,
    {
        let t = digit_or_zero(&u, i) + digit_or_zero(&v, i) + k;
        let ghost w0 = w@;
        let ghost k0 = k;
        let d = t % 10;
        w.push(d);
        k = t / 10;
        proof {
            lemma_low_value_step(u@, i as int);
            lemma_low_value_step(v@, i as int);
            lemma_value_push(w0, d);
            let p = pow10(i as nat);
            assert(pow10((i + 1) as nat) == 10 * p);
            assert(d * p + k * (10 * p) == (digit_at(u@, i as int) + digit_at(v@, i as int) + k0)
                * p) by (nonlinear_arith)
                requires
                    d + 10 * k == digit_at(u@, i as int) + digit_at(v@, i as int) + k0,
            ;
            assert((digit_at(u@, i as int) + digit_at(v@, i as int) + k0) * p == digit_at(
                u@,
                i as int,
            ) * p + digit_at(v@, i as int) * p + k0 * p) by (nonlinear_arith);
        }
        i += 1;
    }
    let ghost w0 = w@;
    w.push(k);
    proof {
        lemma_low_value_step(u@, m as int);
        lemma_low_value_step(v@, m as int);
        lemma_value_push(w0, k);
        lemma_trim(w@);
    }
    ub_clean(&mut w);
    w
}

/// The digits of `u - v` over `n` positions, where `n` covers both operands.
pub(crate) fn sub_padded(u: &Vec<u8>, v: &Vec<u8>, n: usize) -> (w: Vec<u8>)
    requires
        is_digits(u@),
        is_digits(v@),
        u.len() <= n,
        v.len() <= n,
        value(u@) >= value(v@),
    ensures
        w.len() == n,
        is_digits(w@),
        value(w@) == value(u@) - value(v@),
{
    let mut w: Vec<u8> = Vec::new();
    let mut b: u8 = 0;
    let mut i: usize = 0;
    proof {
        lemma_low_value_step(u@, 0);
        lemma_low_value_step(v@, 0);
    }
    while i < n
        invariant
            i <= n,
            w.len() == i,
            b <= 1,
            is_digits(u@),
            is_digits(v@),
            is_digits(w@),
            value(w@) + low_value(v@, i as int) == low_value(u@, i as int) + b * pow10(i as nat),
        decreases n - i,
    {
        let du = digit_or_zero(u, i);
        let dv = digit_or_zero(v, i) + b;
        let ghost w0 = w@;
        let ghost b0 = b;
        let d = if du >= dv {
            b = 0;
            du - dv
        } else {
            b = 1;
            du + 10 - dv
        };
        w.push(d);
        proof {
            lemma_low_value_step(u@, i as int);
            lemma_low_value_step(v@, i as int);
            lemma_value_push(w0, d);
            let p = pow10(i as nat);
            let xu = digit_at(u@, i as int) as int;
            let xv = digit_at(v@, i as int) as int;
            assert(pow10((i + 1) as nat) == 10 * p);
            assert(d * p + xv * p + b0 * p == xu * p + b * (10 * p)) by (nonlinear_arith)
                requires
                    d + xv + b0 == xu + 10 * b,
            ;
        }
        i += 1;
    }
    proof {
        lemma_low_value_step(u@, n as int);
        lemma_low_value_step(v@, n as int);
        lemma_value_bound(w@);
        let p = pow10(n as nat);
        assert(b * p >= p || b == 0) by (nonlinear_arith)
            requires
                b <= 1,
                p >= 0,
        ;
    }
    w
}

/// The difference `u - v`, in canonical form, for `u` not below `v`.
pub(crate) fn sub_cleaned(u: &Vec<u8>, v: &Vec<u8>) -> (w: Vec<u8>)
    requires
        is_digits(u@),
        is_digits(v@),
        value(u@) >= value(v@),
    ensures
        is_canonical(w@),
        value(w@) == value(u@) - value(v@),
{
    let n = if u.len() < v.len() {
        v.len()
    } else {
        u.len()
    };
    let mut w = sub_padded(u, v, n);
    if w.len() == 0 {
        let ghost w0 = w@;
        w.push(0);
        proof {
            lemma_value_push(w0, 0u8);
            assert(0 * pow10(w0.len()) == 0) by (nonlinear_arith);
        }
    }
    proof {
        lemma_trim(w@);
    }
    ub_clean(&mut w);
    w
}

/// The difference `u - v`, in canonical form. `u` must not be below `v`;
/// the shorter operand counts as padded with leading zeros. The result is
/// always `Ok`.
pub fn ub_sub(u: Vec<u8>, v: Vec<u8>) -> (r: Result<Vec<u8>, NumError>)
    requires
        is_digits(u@),
        is_digits(v@),
        value(u@) >= value(v@),
    ensures
        r matches Ok(w) && is_canonical(w@) && value(w@) == value(u@) - value(v@),
{
    Ok(sub_cleaned(&u, &v))
}

/// A copy of the digits of `v`.
pub(crate) fn copy_digits(v: &Vec<u8>) -> (w: Vec<u8>)
    ensures
        w@ == v@,
{
    let w = v.clone();
    assert(w@ =~= v@);
    w
}

/// `n` zero digits.
pub(crate) fn zeros(n: usize) -> (w: Vec<u8>)
    ensures
        w.len() == n,
        forall|i: int| 0 <= i < n ==> w[i] == 0,
        value(w@) == 0,
{
    let mut w: Vec<u8> = Vec::new();
    while w.len() < n
        invariant
            w.len() <= n,
            forall|i: int| 0 <= i < w.len() ==> w[i] == 0,
        decreases n - w.len(),
    {
        w.push(0);
    }
    proof {
        lemma_value_zero(w@);
    }
    w
}

/// The product of `u`, the digit `d` and `10^shift`, over exactly
/// `shift + u.len() + 1` positions.
fn mul_digit_shifted(u: &Vec<u8>, d: u8, shift: usize) -> (w: Vec<u8>)
    requires
        is_digits(u@),
        d < 10,
        shift + u.len() < usize::MAX,
    ensures
        is_digits(w@),
        w.len() == shift + u.len() + 1,
        value(w@) == value(u@) * d * pow10(shift as nat),
{
    let mut w = zeros(shift);
    let m = u.len();
    let mut k: u8 = 0;
    let mut i: usize = 0;
    let ghost s = pow10(shift as nat);
    proof {
        lemma_low_value_step(u@, 0);
        assert(0 * d * s == 0) by (nonlinear_arith);
        assert(0 * pow10(shift as nat) == 0) by (nonlinear_arith);
    }
    while i < m
        invariant
            i <= m,
            m == u.len(),
            shift + m < usize::MAX,
            w.len() == shift + i,
            d < 10,
            k < 10,
            s == pow10(shift as nat),
            is_digits(u@),
            is_digits(w@),
            value(w@) + k * pow10((shift + i) as nat) == low_value(u@, i as int) * d * s,
        decreases m - i,
    {
        assert(u[i as int] * d <= 81) by (nonlinear_arith)
            requires
                u[i as int] < 10,
                d < 10,
        ;
        let t = u[i] * d + k;
        let ghost w0 = w@;
        let ghost k0 = k;
        let c = t % 10;
        w.push(c);
        k = t / 10;
        proof {
            lemma_low_value_step(u@, i as int);
            lemma_value_push(w0, c);
            lemma_pow10_add(shift as nat, i as nat);
            let pi = pow10(i as nat);
            let p = pow10((shift + i) as nat);
            let x = u[i as int] as int;
            let lo = low_value(u@, i as int) as int;
            assert(pow10((shift + i + 1) as nat) == 10 * p);
            assert(c * p + k * (10 * p) == (x * d + k0) * p) by (nonlinear_arith)
                requires
                    c + 10 * k == x * d + k0,
            ;
            assert((x * d + k0) * p + lo * d * s - k0 * p == (lo + x * pi) * d * s)
                by (nonlinear_arith)
                requires
                    p == s * pi,
            ;
        }
        i += 1;
    }
    let ghost w0 = w@;
    w.push(k);
    proof {
        lemma_low_value_step(u@, m as int);
        lemma_value_push(w0, k);
    }
    w
}

/// The product of `u` and `v`, in canonical form.
pub fn ub_mul(u: &Vec<u8>, v: &Vec<u8>) -> (w: Vec<u8>)
    requires
        is_digits(u@),
        is_digits(v@),
        u.len() + v.len() < usize::MAX,
    ensures
        is_canonical(w@),
        value(w@) == value(u@) * value(v@),
    decreases
        (if u.len() < v.len() { 1int } else { 0int }),
{
    if u.len() < v.len() {
        let w = ub_mul(v, u);
        proof {
            assert(value(v@) * value(u@) == value(u@) * value(v@)) by (nonlinear_arith);
        }
        return w;
    }
    let m = u.len();
    let n = v.len();
    let mut acc: Vec<u8> = Vec::new();
    acc.push(0);
    let mut j: usize = 0;
    proof {
        lemma_low_value_step(v@, 0);
        lemma_value_push(Seq::<u8>::empty(), 0u8);
        assert(0 * pow10(0) == 0) by (nonlinear_arith);
        assert(value(u@) * 0 == 0) by (nonlinear_arith);
    }
    while j < n
        invariant
            j <= n,
            m == u.len(),
            n == v.len(),
            m + n < usize::MAX,
            is_digits(u@),
            is_digits(v@),
            is_canonical(acc@),
            value(acc@) == value(u@) * low_value(v@, j as int),
        decreases n - j,
    {
        let d = v[j];
        let ghost acc0 = acc@;
        proof {
            lemma_low_value_step(v@, j as int);
            let a = value(u@) as int;
            let lo = low_value(v@, j as int) as int;
            let pj = pow10(j as nat) as int;
            assert(a * (lo + d * pj) == a * lo + a * d * pj) by (nonlinear_arith);
            assert(d == 0 ==> a * d * pj == 0) by (nonlinear_arith);
            assert(value(acc0) + a * d * pj == a * low_value(v@, j + 1));
        }
        if d != 0 {
            let part = mul_digit_shifted(u, d, j);
            proof {
                // the accumulator stays below 10^(m + j), so it has room to grow
                lemma_value_bound(u@);
                lemma_value_bound(v@.take(j as int));
                lemma_pow10_add(m as nat, j as nat);
                lemma_pow10_positive(j as nat);
                let a = value(u@) as int;
                let lo = low_value(v@, j as int) as int;
                let pm = pow10(m as nat) as int;
                let pj = pow10(j as nat) as int;
                assert(a * lo < pm * pj) by (nonlinear_arith)
                    requires
                        0 <= a < pm,
                        0 <= lo < pj,
                ;
                if m + j >= 1 {
                    lemma_len_bound(acc@, (m + j) as nat);
                } else {
                    lemma_len_bound(acc@, 1);
                }
            }
            acc = ub_add(acc, part);
        }
        j += 1;
    }
    proof {
        lemma_low_value_step(v@, n as int);
    }
    acc
}

/// The canonical quotient and the remainder of `u` by a nonzero `v`.
pub(crate) fn shortdiv_nonzero(u: &Vec<u8>, v: u8) -> (r: (Vec<u8>, u8))
    requires
        is_digits(u@),
        v != 0,
    ensures
        is_canonical(r.0@),
        value(u@) == value(r.0@) * v + r.1,
        r.1 < v,
{
    let n = u.len();
    let mut res = zeros(if n == 0 {
        1
    } else {
        n
    });
    let mut rem: u8 = 0;
    let mut i: usize = n;
    proof {
        assert(u@.skip(n as int) =~= Seq::<u8>::empty());
        lemma_value_zero(res@.skip(n as int));
        assert(0 * v == 0) by (nonlinear_arith);
    }
    while i > 0
        invariant
            i <= n,
            n == u.len(),
            res.len() == (if n == 0 { 1usize } else { n }),
            v != 0,
            rem < v,
            is_digits(u@),
            is_digits(res@),
            value(u@.skip(i as int)) == value(res@.skip(i as int)) * v + rem,
        decreases i,
    {
        i -= 1;
        let x: u16 = (rem as u16) * 10 + (u[i] as u16);
        let ghost hi = res@.skip(i + 1);
        let ghost rem0 = rem;
        let c = x / (v as u16);
        proof {
            assert(c < 10) by (nonlinear_arith)
                requires
                    c == x / (v as u16),
                    x < (v as u16) * 10,
                    v > 0,
            ;
        }
        res.set(i, c as u8);
        rem = (x % (v as u16)) as u8;
        proof {
            assert(res@.skip(i as int) =~= seq![c as u8] + hi);
            assert(res@.skip(i + 1) =~= hi);
            lemma_value_cons(c as u8, hi);
            assert(u@.skip(i as int) =~= seq![u[i as int]] + u@.skip(i + 1));
            lemma_value_cons(u[i as int], u@.skip(i + 1));
            let h = value(hi) as int;
            assert(x == c * v + rem) by (nonlinear_arith)
                requires
                    c == x / (v as u16),
                    rem == x % (v as u16),
                    v > 0,
            ;
            assert(u[i as int] + 10 * (h * v + rem0) == (c + 10 * h) * v + rem)
                by (nonlinear_arith)
                requires
                    rem0 * 10 + u[i as int] == c * v + rem,
            ;
        }
    }
    proof {
        assert(u@.skip(0) =~= u@);
        assert(res@.skip(0) =~= res@);
        lemma_trim(res@);
    }
    ub_clean(&mut res);
    (res, rem)
}

/// Divides `u` by the single digit `v`: the canonical quotient and the
/// remainder, or `DivisionByZero` when `v` is zero.
pub fn ub_shortdiv(u: Vec<u8>, v: u8) -> (r: Result<(Vec<u8>, u8), NumError>)
    requires
        is_digits(u@),
    ensures
        match r {
            Ok((q, rem)) => {
                &&& v != 0
                &&& is_canonical(q@)
                &&& value(u@) == value(q@) * v + rem
                &&& rem < v
            },
            Err(e) => v == 0 && e == NumError::DivisionByZero,
        },
{
    if v == 0 {
        return Err(NumError::DivisionByZero);
    }
    Ok(shortdiv_nonzero(&u, v))
}

/// The exponent `k` when `b` is a one above `k` zeros, the canonical
/// digits of `10^k`.
pub fn is_power_of_ten(b: &Vec<u8>) -> (r: Option<usize>)
    ensures
        r == (if is_one_then_zeros(b@) {
            Some((b.len() - 1) as usize)
        } else {
            None
        }),
{
    let n = b.len();
    if n == 0 || b[n - 1] != 1 {
        return None;
    }
    let mut i: usize = 0;
    while i < n - 1
        invariant
            i <= n - 1,
            n == b.len(),
            n >= 1,
            forall|k: int| 0 <= k < i ==> b[k] == 0,
        decreases n - i,
    {
        if b[i] != 0 {
            return None;
        }
        i += 1;
    }
    Some(n - 1)
}

} // verus!
