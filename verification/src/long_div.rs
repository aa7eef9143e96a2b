//! Division of unsigned magnitudes by a divisor of two or more digits:
//! normalised long division with an estimated quotient digit, its
//! correction, and an add-back when the estimate overshoots.

use vstd::prelude::*;
use crate::magnitude::{
    is_canonical, is_digits, lemma_len_bound, lemma_pow10_monotone, lemma_pow10_positive,
    lemma_trim, lemma_value_bound, lemma_value_cons, lemma_value_lower, lemma_value_push,
    lemma_value_single, lemma_value_split, lemma_value_zero, pow10, value,
};
use crate::error::NumError;
use vstd::arithmetic::div_mod::{lemma_fundamental_div_mod, lemma_mod_bound};
use crate::unsigned::{
    copy_digits, shortdiv_nonzero, sub_cleaned, sub_padded, ub_add, ub_clean, ub_cleaned,
    ub_is_lower, ub_mul, zeros,
};

verus! {

/// The value of a window of `n + 1` digits, split at its three leading ones.
proof fn lemma_lead_three(w: Seq<u8>, n: int)
    requires
        n >= 2,
        w.len() == n + 1,
    ensures
        value(w) == value(w.take(n - 2)) + pow10((n - 2) as nat) * (w[n - 2] + 10 * w[n - 1] + 100
            * w[n]),
{
    lemma_value_split(w, n - 2);
    let t = w.skip(n - 2);
    let t1 = t.drop_first();
    let t2 = t1.drop_first();
    assert(t2.drop_first().len() == 0);
    assert(value(t2) == t2[0] + 10 * value(t2.drop_first()));
    assert(value(t1) == t1[0] + 10 * value(t2));
    assert(value(t) == t[0] + 10 * value(t1));
}

/// The value of a divisor of `n` digits, split at its two leading ones.
proof fn lemma_lead_two(v: Seq<u8>, n: int)
    requires
        n >= 2,
        v.len() == n,
    ensures
        value(v) == value(v.take(n - 2)) + pow10((n - 2) as nat) * (v[n - 2] + 10 * v[n - 1]),
{
    lemma_value_split(v, n - 2);
    let t = v.skip(n - 2);
    let t1 = t.drop_first();
    assert(t1.drop_first().len() == 0);
    assert(value(t1) == t1[0] + 10 * value(t1.drop_first()));
    assert(value(t) == t[0] + 10 * value(t1));
}

/// A window of the dividend and the divisor, each split at its leading
/// digits: with `base` the weight of the divisor's second digit,
/// `window == low_w + base * (w3 + 10 * top2)` and
/// `divisor == low_v + base * (v2 + 10 * v1)`.
struct Leading {
    /// The value of the window.
    window: int,
    /// The value of the divisor.
    divisor: int,
    /// The weight of the divisor's second digit.
    base: int,
    /// What the window holds below its three leading digits.
    low_w: int,
    /// What the divisor holds below its two leading digits.
    low_v: int,
    /// The two leading digits of the window, as one number.
    top2: int,
    /// The third digit of the window.
    w3: int,
    /// The leading digit of the divisor.
    v1: int,
    /// The second digit of the divisor.
    v2: int,
}

/// `l` splits its window and its divisor as its fields say.
spec fn split_at_lead(l: Leading) -> bool {
    &&& l.base >= 1
    &&& 0 <= l.low_w < l.base
    &&& 0 <= l.low_v < l.base
    &&& 0 <= l.top2
    &&& 0 <= l.w3 <= 9
    &&& 1 <= l.v1 <= 9
    &&& 0 <= l.v2 <= 9
    &&& l.window == l.low_w + l.base * (l.w3 + 10 * l.top2)
    &&& l.divisor == l.low_v + l.base * (l.v2 + 10 * l.v1)
}

/// `q` and `r` are a quotient and what it leaves of the two leading digits
/// of the window by the leading digit of the divisor.
spec fn estimates(l: Leading, q: int, r: int) -> bool {
    q >= 0 && l.top2 == q * l.v1 + r
}

/// A window below ten times the divisor has two leading digits no larger
/// than ten times the divisor's leading digit and nine.
proof fn lemma_lead_digits(l: Leading)
    requires
        split_at_lead(l),
        l.window < 10 * l.divisor,
    ensures
        l.top2 <= 10 * l.v1 + 9,
{
    let b = l.base;
    if l.top2 >= 10 * l.v1 + 10 {
        assert(b * (l.w3 + 10 * l.top2) >= b * (100 * l.v1 + 100)) by (nonlinear_arith)
            requires
                b >= 1,
                l.w3 >= 0,
                l.top2 >= 10 * l.v1 + 10,
        ;
        assert(10 * (b * (l.v2 + 10 * l.v1)) + 10 * b <= b * (100 * l.v1 + 100))
            by (nonlinear_arith)
            requires
                b >= 1,
                l.v2 <= 9,
        ;
    }
}

/// The quotient digit estimated from the two leading digits of the window
/// and the leading digit of the divisor is never too small.
proof fn lemma_estimate_covers(l: Leading, q: int, r: int)
    requires
        split_at_lead(l),
        estimates(l, q, r),
        0 <= r < l.v1,
    ensures
        l.window < (q + 1) * l.divisor,
{
    let b = l.base;
    let v1 = l.v1;
    assert(b * (l.v2 + 10 * v1) >= b * (10 * v1)) by (nonlinear_arith)
        requires
            b >= 1,
            l.v2 >= 0,
    ;
    assert((q + 1) * l.divisor >= (q + 1) * (b * (10 * v1))) by (nonlinear_arith)
        requires
            l.divisor >= b * (10 * v1),
            q >= 0,
    ;
    assert((q + 1) * (b * (10 * v1)) == b * (10 * (q * v1 + v1))) by (nonlinear_arith);
    assert(b * (10 * (q * v1 + v1)) >= b * (10 * l.top2 + 10)) by (nonlinear_arith)
        requires
            b >= 1,
            q * v1 + v1 >= l.top2 + 1,
    ;
    assert(b * (l.w3 + 10 * l.top2) + b <= b * (10 * l.top2 + 10)) by (nonlinear_arith)
        requires
            b >= 1,
            l.w3 <= 9,
    ;
}

/// With a divisor that leads with five or more, the first estimate is at
/// most two above any digit `q` that is not too large for the window.
proof fn lemma_estimate_within_two(l: Leading, q_first: int, q: int)
    requires
        split_at_lead(l),
        l.v1 >= 5,
        0 <= q <= 9,
        q_first >= 0,
        q_first * l.v1 <= l.top2,
        l.window < (q + 1) * l.divisor,
    ensures
        q_first <= q + 2,
{
    let b = l.base;
    let v1 = l.v1;
    // the divisor is below (v1 + 1) * 10 * base, the window at least
    // top2 * 10 * base
    assert(l.divisor < b * (10 * v1 + 10)) by (nonlinear_arith)
        requires
            l.divisor == l.low_v + b * (l.v2 + 10 * v1),
            l.low_v < b,
            l.v2 <= 9,
            b >= 1,
    ;
    assert(l.window >= b * (10 * l.top2)) by (nonlinear_arith)
        requires
            l.window == l.low_w + b * (l.w3 + 10 * l.top2),
            l.low_w >= 0,
            l.w3 >= 0,
            b >= 1,
    ;
    assert((q + 1) * l.divisor <= (q + 1) * (b * (10 * v1 + 10))) by (nonlinear_arith)
        requires
            l.divisor < b * (10 * v1 + 10),
            q >= 0,
    ;
    assert((q + 1) * (b * (10 * v1 + 10)) == b * (10 * ((q + 1) * (v1 + 1))))
        by (nonlinear_arith);
    assert(l.top2 < (q + 1) * (v1 + 1)) by (nonlinear_arith)
        requires
            b * (10 * l.top2) < b * (10 * ((q + 1) * (v1 + 1))),
            b >= 1,
    ;
    if q_first >= q + 3 {
        assert(q_first * v1 >= (q + 3) * v1) by (nonlinear_arith)
            requires
                q_first >= q + 3,
                v1 >= 0,
        ;
        assert((q + 3) * v1 > (q + 1) * (v1 + 1) - 1) by (nonlinear_arith)
            requires
                v1 >= 5,
                0 <= q <= 9,
        ;
    }
}

/// When the second-digit test fires, the estimate is too large.
proof fn lemma_correction_sound(l: Leading, q: int, r: int)
    requires
        split_at_lead(l),
        estimates(l, q, r),
        q * l.v2 > 10 * r + l.w3,
    ensures
        l.window < q * l.divisor,
{
    let b = l.base;
    let v1 = l.v1;
    let v2 = l.v2;
    assert(q * l.divisor >= q * (b * (v2 + 10 * v1))) by (nonlinear_arith)
        requires
            l.divisor >= b * (v2 + 10 * v1),
            q >= 0,
    ;
    assert(q * (b * (v2 + 10 * v1)) == b * (q * v2 + 10 * (q * v1))) by (nonlinear_arith);
    assert(b * (q * v2 + 10 * (q * v1)) >= b * (l.w3 + 10 * l.top2) + b) by (nonlinear_arith)
        requires
            b >= 1,
            q * v2 >= 10 * r + l.w3 + 1,
            l.top2 == q * v1 + r,
    ;
}

/// When the second-digit test passes, the estimate is at most one too
/// large.
proof fn lemma_estimate_close(l: Leading, q: int, r: int)
    requires
        split_at_lead(l),
        estimates(l, q, r),
        q * l.v2 <= 10 * r + l.w3,
        q <= 10,
    ensures
        q * l.divisor < l.window + l.divisor,
{
    let b = l.base;
    let v1 = l.v1;
    let v2 = l.v2;
    let lv = l.low_v;
    if q >= 1 {
        assert(q * l.divisor == q * lv + q * (b * (v2 + 10 * v1))) by (nonlinear_arith)
            requires
                l.divisor == lv + b * (v2 + 10 * v1),
        ;
        assert(q * (b * (v2 + 10 * v1)) == b * (q * v2 + 10 * (q * v1))) by (nonlinear_arith);
        assert(b * (q * v2 + 10 * (q * v1)) <= b * (l.w3 + 10 * l.top2)) by (nonlinear_arith)
            requires
                b >= 1,
                q * v2 <= 10 * r + l.w3,
                l.top2 == q * v1 + r,
        ;
        assert(q * lv < 10 * b) by (nonlinear_arith)
            requires
                1 <= q <= 10,
                0 <= lv < b,
        ;
        assert(b * (v2 + 10 * v1) >= 10 * b) by (nonlinear_arith)
            requires
                b >= 1,
                v2 >= 0,
                v1 >= 1,
        ;
    } else {
        assert(q * l.divisor == 0) by (nonlinear_arith)
            requires
                q == 0,
        ;
        assert(b * (v2 + 10 * v1) >= 1) by (nonlinear_arith)
            requires
                b >= 1,
                v2 >= 0,
                v1 >= 1,
        ;
    }
}

/// `rem` with the digit `d` put below it: ten times `rem` plus `d`.
fn shift_in(rem: &Vec<u8>, d: u8) -> (w: Vec<u8>)
    requires
        rem.len() < usize::MAX,
    ensures
        w@ == seq![d] + rem@,
{
    let mut w: Vec<u8> = Vec::new();
    w.push(d);
    let mut i: usize = 0;
    while i < rem.len()
        invariant
            i <= rem.len(),
            w@ == seq![d] + rem@.take(i as int),
        decreases rem.len() - i,
    {
        w.push(rem[i]);
        proof {
            assert(rem@.take(i + 1) =~= rem@.take(i as int).push(rem[i as int]));
            assert(w@ =~= seq![d] + rem@.take(i + 1));
        }
        i += 1;
    }
    proof {
        assert(rem@.take(rem.len() as int) =~= rem@);
    }
    w
}

/// One step of the long division: the quotient digit of the window `win`
/// by the normalised divisor `v`, and what is left of the window.
fn div_step(win: &Vec<u8>, v: &Vec<u8>) -> (r: (u8, Vec<u8>))
    requires
        is_digits(win@),
        is_digits(v@),
        v.len() >= 2,
        v.len() + 2 < usize::MAX,
        win.len() == v.len() + 1,
        v@.last() >= 5,
        value(win@) < 10 * value(v@),
    ensures
        r.0 < 10,
        is_digits(r.1@),
        r.1.len() == v.len(),
        value(win@) == r.0 * value(v@) + value(r.1@),
        value(r.1@) < value(v@),
{
    let n = v.len();
    let v1 = v[n - 1];
    let v2 = v[n - 2];
    let w3 = win[n - 2];
    let top2 = win[n] * 10 + win[n - 1];
    let ghost wv = value(win@) as int;
    let ghost vv = value(v@) as int;
    let ghost lead = Leading {
        window: wv,
        divisor: vv,
        base: pow10((n - 2) as nat) as int,
        low_w: value(win@.take(n - 2)) as int,
        low_v: value(v@.take(n - 2)) as int,
        top2: top2 as int,
        w3: w3 as int,
        v1: v1 as int,
        v2: v2 as int,
    };
    proof {
        lemma_lead_three(win@, n as int);
        lemma_lead_two(v@, n as int);
        lemma_pow10_positive((n - 2) as nat);
        lemma_value_bound(win@.take(n - 2));
        lemma_value_bound(v@.take(n - 2));
        lemma_lead_digits(lead);
    }
    let mut q_est = top2 / v1;
    let mut r_est = top2 % v1;
    proof {
        assert(top2 == q_est * v1 + r_est && q_est <= 11) by (nonlinear_arith)
            requires
                q_est == top2 / v1,
                r_est == top2 % v1,
                top2 <= 10 * v1 + 9,
                v1 >= 5,
        ;
        lemma_estimate_covers(lead, q_est as int, r_est as int);
    }
    // the digit that is sought, and the estimate before its corrections
    let ghost q_true = wv / vv;
    let ghost q_first = q_est;
    proof {
        lemma_value_lower(v@);
        lemma_pow10_positive((n - 1) as nat);
        lemma_fundamental_div_mod(wv, vv);
        lemma_mod_bound(wv, vv);
        assert(0 <= q_true <= 9) by (nonlinear_arith)
            requires
                wv == vv * q_true + wv % vv,
                0 <= wv % vv < vv,
                0 <= wv < 10 * vv,
        ;
        assert(wv < (q_true + 1) * vv) by (nonlinear_arith)
            requires
                wv == vv * q_true + wv % vv,
                wv % vv < vv,
        ;
        lemma_estimate_within_two(lead, q_first as int, q_true);
    }
    loop
        invariant_except_break
            r_est < 10,
        invariant
            q_true * vv <= wv,
            vv > 0,
            q_first <= q_true + 2,
            q_first - q_est <= 2,
            split_at_lead(lead),
            estimates(lead, q_est as int, r_est as int),
            lead.window == wv,
            lead.divisor == vv,
            lead.top2 == top2,
            lead.w3 == w3,
            lead.v1 == v1,
            lead.v2 == v2,
            v1 >= 5,
            q_est <= 11,
            top2 <= 10 * v1 + 9,
            wv < (q_est + 1) * vv,
            wv < 10 * vv,
        ensures
            q_est < 10,
            q_est * v2 <= 10 * r_est + w3,
        decreases q_est,
    {
        assert(q_est * v2 <= 99) by (nonlinear_arith)
            requires
                q_est <= 11,
                v2 <= 9,
        ;
        if q_est >= 10 || q_est * v2 > 10 * r_est + w3 {
            proof {
                if q_est >= 10 {
                    assert(q_est * vv >= 10 * vv) by (nonlinear_arith)
                        requires
                            q_est >= 10,
                            vv >= 0,
                    ;
                } else {
                    lemma_correction_sound(lead, q_est as int, r_est as int);
                }
                assert((q_est - 1) * v1 + (r_est + v1) == q_est * v1 + r_est)
                    by (nonlinear_arith);
                assert(q_est >= 1) by (nonlinear_arith)
                    requires
                        q_est >= 10 || q_est * v2 > 10 * r_est + w3,
                        q_est >= 0,
                ;
                // the estimate was too large, so at most two corrections
                // bring it down to the digit that is sought
                assert(q_true < q_est) by (nonlinear_arith)
                    requires
                        q_true * vv <= wv,
                        wv < q_est * vv,
                        vv > 0,
                ;
            }
            q_est -= 1;
            r_est += v1;
            if r_est >= 10 {
                proof {
                    assert(q_est < 10 && q_est * v2 <= 90) by (nonlinear_arith)
                        requires
                            top2 == q_est * v1 + r_est,
                            top2 <= 10 * v1 + 9,
                            r_est >= 10,
                            v1 >= 5,
                            0 <= v2 <= 9,
                            q_est >= 0,
                    ;
                }
                break ;
            }
        } else {
            break ;
        }
    }
    proof {
        lemma_estimate_close(lead, q_est as int, r_est as int);
    }
    // the estimate times the divisor, over n + 1 positions
    let ghost q0 = q_est;
    let mut digit: Vec<u8> = Vec::new();
    digit.push(q_est);
    proof {
        lemma_value_push(Seq::<u8>::empty(), q_est);
        assert(q_est * pow10(0) == q_est) by (nonlinear_arith)
            requires
                pow10(0) == 1,
        ;
    }
    let prod = ub_mul(v, &digit);
    proof {
        assert(vv * q0 == q0 * vv) by (nonlinear_arith);
        // the product fits the window's n + 1 positions
        lemma_value_bound(v@);
        assert(pow10((n + 1) as nat) == 10 * pow10(n as nat));
        assert(q0 * vv < 10 * pow10(n as nat)) by (nonlinear_arith)
            requires
                q0 <= 9,
                0 <= vv < pow10(n as nat),
        ;
        lemma_len_bound(prod@, (n + 1) as nat);
    }
    let borrow = ub_is_lower(win, &prod);
    let mut rest = if borrow {
        // the estimate is one too large: take the ten's complement of the
        // overshoot, then add the divisor back and drop the carry
        proof {
            assert(q0 >= 1) by (nonlinear_arith)
                requires
                    wv < q0 * vv,
                    wv >= 0,
                    q0 >= 0,
            ;
            lemma_value_bound(win@);
            lemma_pow10_positive(n as nat);
        }
        let mut ten_pow = zeros(n + 1);
        let ghost z = ten_pow@;
        ten_pow.push(1);
        proof {
            lemma_value_push(z, 1u8);
            assert(1 * pow10((n + 1) as nat) == pow10((n + 1) as nat)) by (nonlinear_arith);
            assert(is_digits(ten_pow@));
        }
        let over = sub_padded(&prod, win, n + 1);
        let comp = sub_padded(&ten_pow, &over, n + 2);
        q_est -= 1;
        let sum = ub_add(shift_in_zero_top(v), comp);
        let ghost target = wv + vv - q0 * vv;
        proof {
            assert(value(sum@) == pow10((n + 1) as nat) + target);
            assert(0 <= target < vv) by (nonlinear_arith)
                requires
                    target == wv + vv - q0 * vv,
                    wv < q0 * vv,
                    q0 * vv < wv + vv,
            ;
            assert(target == wv - q_est * vv) by (nonlinear_arith)
                requires
                    target == wv + vv - q0 * vv,
                    q_est == q0 - 1,
            ;
        }
        low_digits(&sum, n + 1)
    } else {
        proof {
            assert(wv - q0 * vv < vv) by (nonlinear_arith)
                requires
                    wv < (q0 + 1) * vv,
            ;
        }
        sub_padded(win, &prod, n + 1)
    };
    proof {
        // what is left is below the divisor, so its leading digit is zero
        lemma_value_bound(v@);
        let top = rest@.last();
        let lo = rest@.drop_last();
        assert(rest@ =~= lo.push(top));
        lemma_value_push(lo, top);
        assert(top == 0) by {
            if top >= 1 {
                assert(top * pow10(n as nat) >= pow10(n as nat)) by (nonlinear_arith)
                    requires
                        top >= 1,
                ;
            }
        }
        assert(0 * pow10(n as nat) == 0) by (nonlinear_arith);
    }
    rest.pop();
    (q_est, rest)
}

/// The digits of `v` with a zero above them.
fn shift_in_zero_top(v: &Vec<u8>) -> (w: Vec<u8>)
    requires
        is_digits(v@),
    ensures
        is_digits(w@),
        w.len() == v.len() + 1,
        value(w@) == value(v@),
{
    let mut w = copy_digits(v);
    let ghost w0 = w@;
    w.push(0);
    proof {
        lemma_value_push(w0, 0u8);
        assert(0 * pow10(w0.len()) == 0) by (nonlinear_arith);
    }
    w
}

/// The lowest `k` digits of `s`, which holds one digit more and denotes
/// `10^k` plus a number below `10^k`.
fn low_digits(s: &Vec<u8>, k: usize) -> (w: Vec<u8>)
    requires
        is_digits(s@),
        pow10(k as nat) <= value(s@) < 2 * pow10(k as nat),
        is_canonical(s@),
    ensures
        is_digits(w@),
        w.len() == k,
        value(w@) == value(s@) - pow10(k as nat),
{
    proof {
        // s has exactly k + 1 digits, the last of them a one
        lemma_pow10_positive(k as nat);
        assert(pow10((k + 1) as nat) == 10 * pow10(k as nat));
        lemma_len_bound(s@, (k + 1) as nat);
        if s.len() <= k {
            lemma_value_bound(s@);
            lemma_pow10_monotone(s.len() as nat, k as nat);
        }
        let top = s@.last();
        let lo = s@.drop_last();
        assert(s@ =~= lo.push(top));
        lemma_value_push(lo, top);
        lemma_value_bound(lo);
        assert(top == 1) by {
            if top >= 2 {
                assert(top * pow10(k as nat) >= 2 * pow10(k as nat)) by (nonlinear_arith)
                    requires
                        top >= 2,
                ;
            }
            if top == 0 {
                assert(0 * pow10(k as nat) == 0) by (nonlinear_arith);
            }
        }
        assert(1 * pow10(k as nat) == pow10(k as nat)) by (nonlinear_arith);
    }
    let mut w = copy_digits(s);
    w.pop();
    w
}

/// Long division by a normalised divisor: one of two or more digits whose
/// leading digit is at least five. Returns the canonical quotient and the
/// remainder over the divisor's positions.
pub(crate) fn inner_div(u: &Vec<u8>, v: &Vec<u8>) -> (r: (Vec<u8>, Vec<u8>))
    requires
        is_digits(u@),
        is_digits(v@),
        v.len() >= 2,
        v.len() + 2 < usize::MAX,
        v@.last() >= 5,
    ensures
        is_canonical(r.0@),
        is_digits(r.1@),
        r.1.len() == v.len(),
        value(u@) == value(r.0@) * value(v@) + value(r.1@),
        value(r.1@) < value(v@),
{
    let n = v.len();
    let m = u.len();
    let mut q = zeros(if m == 0 {
        1
    } else {
        m
    });
    let mut rem = zeros(n);
    let mut j: usize = m;
    proof {
        lemma_value_lower(v@);
        lemma_pow10_positive((n - 1) as nat);
        assert(u@.skip(m as int) =~= Seq::<u8>::empty());
        lemma_value_zero(q@.skip(m as int));
        assert(0 * value(v@) == 0) by (nonlinear_arith);
    }
    while j > 0
        invariant
            j <= m,
            m == u.len(),
            n == v.len(),
            n >= 2,
            n + 2 < usize::MAX,
            v@.last() >= 5,
            q.len() == (if m == 0 { 1usize } else { m }),
            rem.len() == n,
            is_digits(u@),
            is_digits(v@),
            is_digits(q@),
            is_digits(rem@),
            value(rem@) < value(v@),
            value(u@.skip(j as int)) == value(q@.skip(j as int)) * value(v@) + value(rem@),
        decreases j,
    {
        j -= 1;
        let ghost hi = q@.skip(j + 1);
        let ghost rem0 = rem@;
        let win = shift_in(&rem, u[j]);
        proof {
            lemma_value_cons(u[j as int], rem0);
        }
        let (qd, rest) = div_step(&win, v);
        q.set(j, qd);
        rem = rest;
        proof {
            assert(q@.skip(j as int) =~= seq![qd] + hi);
            lemma_value_cons(qd, hi);
            assert(u@.skip(j as int) =~= seq![u[j as int]] + u@.skip(j + 1));
            lemma_value_cons(u[j as int], u@.skip(j + 1));
            let h = value(hi) as int;
            let vv = value(v@) as int;
            assert(10 * (h * vv) + qd * vv == (qd + 10 * h) * vv) by (nonlinear_arith);
        }
    }
    proof {
        assert(u@.skip(0) =~= u@);
        assert(q@.skip(0) =~= q@);
        lemma_trim(q@);
    }
    ub_clean(&mut q);
    (q, rem)
}

/// The largest multiplier that keeps the divisor within its own length
/// brings its leading digit to five or more.
proof fn lemma_normalised_lead(nv: Seq<u8>, vv: int, d: int, n: int)
    requires
        is_digits(nv),
        nv.len() == n,
        n >= 1,
        d >= 1,
        vv >= 0,
        value(nv) == d * vv,
        (d + 1) * vv >= pow10(n as nat),
    ensures
        nv.last() >= 5,
{
    let p = pow10((n - 1) as nat) as int;
    let lo = nv.drop_last();
    let top = nv.last();
    assert(nv =~= lo.push(top));
    lemma_value_push(lo, top);
    lemma_value_bound(lo);
    assert(pow10(n as nat) == 10 * p);
    assert(d * vv >= 5 * p) by (nonlinear_arith)
        requires
            d >= 1,
            vv >= 0,
            (d + 1) * vv >= 10 * p,
    ;
    if top <= 4 {
        assert(top * p <= 4 * p) by (nonlinear_arith)
            requires
                top <= 4,
                p >= 0,
        ;
    }
}

/// The canonical quotient and remainder of `u` by a `v` that is not zero.
pub(crate) fn div_nonzero(u: &Vec<u8>, v: &Vec<u8>) -> (r: (Vec<u8>, Vec<u8>))
    requires
        is_digits(u@),
        is_digits(v@),
        value(v@) != 0,
        u.len() + 2 < usize::MAX,
        v.len() + 2 < usize::MAX,
    ensures
        is_canonical(r.0@),
        is_canonical(r.1@),
        value(u@) == value(r.0@) * value(v@) + value(r.1@),
        value(r.1@) < value(v@),
{
    let vc = ub_cleaned(copy_digits(v));
    proof {
        lemma_trim(v@);
    }
    let n = vc.len();
    if n == 1 {
        let d = vc[0];
        proof {
            lemma_value_single(vc@);
        }
        let (q, rem) = shortdiv_nonzero(u, d);
        let mut remv: Vec<u8> = Vec::new();
        remv.push(rem);
        proof {
            lemma_value_single(remv@);
        }
        return (q, remv);
    }
    // normalise: the largest multiplier that keeps the divisor at n digits
    let top = vc[n - 1];
    let ghost vv = value(vc@) as int;
    let ghost pn = pow10(n as nat) as int;
    let mut normaliser: u8 = 9 / top;
    let mut single: Vec<u8> = Vec::new();
    single.push(normaliser);
    proof {
        lemma_value_push(Seq::<u8>::empty(), normaliser);
        assert(normaliser * pow10(0) == normaliser) by (nonlinear_arith)
            requires
                pow10(0) == 1,
        ;
        // (normaliser + 1) * top >= 10, so (normaliser + 1) * v >= 10^n
        let lo = vc@.drop_last();
        assert(vc@ =~= lo.push(top));
        lemma_value_push(lo, top);
        let p = pow10((n - 1) as nat) as int;
        assert(pn == 10 * p);
        assert((normaliser + 1) * top >= 10 && normaliser >= 1) by (nonlinear_arith)
            requires
                normaliser == 9u8 / top,
                1 <= top <= 9,
        ;
        assert((normaliser + 1) * vv >= 10 * p) by (nonlinear_arith)
            requires
                vv >= top * p,
                (normaliser + 1) * top >= 10,
                p >= 0,
                normaliser >= 0,
        ;
        lemma_value_bound(vc@);
    }
    let mut nv = ub_mul(&vc, &single);
    proof {
        assert(vv * normaliser == normaliser * vv) by (nonlinear_arith);
    }
    while nv.len() > n
        invariant
            n == vc.len(),
            n >= 2,
            is_canonical(vc@),
            is_canonical(nv@),
            vv == value(vc@),
            pn == pow10(n as nat),
            vv < pn,
            1 <= normaliser <= 9,
            value(nv@) == normaliser * vv,
            (normaliser + 1) * vv >= pn,
        decreases normaliser,
    {
        proof {
            lemma_value_lower(nv@);
            lemma_pow10_monotone(n as nat, (nv.len() - 1) as nat);
            assert(normaliser >= 2) by (nonlinear_arith)
                requires
                    normaliser * vv >= pn,
                    vv < pn,
                    normaliser >= 1,
            ;
            assert((normaliser - 1) * vv == normaliser * vv - vv) by (nonlinear_arith);
            assert(normaliser * vv - vv >= 0) by (nonlinear_arith)
                requires
                    normaliser >= 1,
                    vv >= 0,
            ;
        }
        normaliser -= 1;
        nv = sub_cleaned(&nv, &vc);
    }
    proof {
        // the normalised divisor has exactly n digits
        lemma_value_lower(vc@);
        assert(value(nv@) >= vv) by (nonlinear_arith)
            requires
                value(nv@) == normaliser * vv,
                normaliser >= 1,
                vv >= 0,
        ;
        if nv.len() < n {
            lemma_value_bound(nv@);
            lemma_pow10_monotone(nv.len() as nat, (n - 1) as nat);
        }
        lemma_normalised_lead(nv@, vv, normaliser as int, n as int);
    }
    single.set(0, normaliser);
    proof {
        assert(single@ =~= Seq::<u8>::empty().push(normaliser));
        lemma_value_push(Seq::<u8>::empty(), normaliser);
        assert(normaliser * pow10(0) == normaliser) by (nonlinear_arith)
            requires
                pow10(0) == 1,
        ;
    }
    let nu = ub_mul(u, &single);
    let (quotient, nrem) = inner_div(&nu, &nv);
    // the quotient is that of u by v; only the remainder is still scaled
    let ghost uv = value(u@) as int;
    let ghost qv = value(quotient@) as int;
    let ghost nr = value(nrem@) as int;
    let (rem, r0) = shortdiv_nonzero(&nrem, normaliser);
    proof {
        let d = normaliser as int;
        let rv = value(rem@) as int;
        assert(uv * d == qv * (d * vv) + nr);
        assert(nr == rv * d + r0);
        let k = uv - qv * vv - rv;
        assert(r0 == d * k) by (nonlinear_arith)
            requires
                uv * d == qv * (d * vv) + (rv * d + r0),
                k == uv - qv * vv - rv,
        ;
        // the scaled remainder is a multiple of the multiplier
        assert(k == 0) by (nonlinear_arith)
            requires
                0 <= d * k < d,
        ;
        assert(r0 == 0);
        assert(rv < vv) by (nonlinear_arith)
            requires
                rv * d + r0 < d * vv,
                r0 >= 0,
                d >= 1,
        ;
    }
    (quotient, rem)
}

/// Divides `u` by `v`: the canonical quotient and remainder, or
/// `DivisionByZero` when `v` denotes zero.
pub fn ub_div(u: &Vec<u8>, v: &Vec<u8>) -> (r: Result<(Vec<u8>, Vec<u8>), NumError>)
    requires
        is_digits(u@),
        is_digits(v@),
        u.len() + 2 < usize::MAX,
        v.len() + 2 < usize::MAX,
    ensures
        match r {
            Ok((q, rem)) => {
                &&& value(v@) != 0
                &&& is_canonical(q@)
                &&& is_canonical(rem@)
                &&& value(u@) == value(q@) * value(v@) + value(rem@)
                &&& value(rem@) < value(v@)
            },
            Err(e) => value(v@) == 0 && e == NumError::DivisionByZero,
        },
{
    proof {
        lemma_value_zero(v@);
    }
    let mut i: usize = 0;
    while i < v.len() && v[i] == 0
        invariant
            i <= v.len(),
            forall|k: int| 0 <= k < i ==> v[k] == 0,
        decreases v.len() - i,
    {
        i += 1;
    }
    if i == v.len() {
        return Err(NumError::DivisionByZero);
    }
    Ok(div_nonzero(u, v))
}

} // verus!
