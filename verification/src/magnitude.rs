//! The mathematical model of unsigned magnitudes: little-endian sequences of
//! base-10 digits, their value, and their canonical form.

use vstd::prelude::*;

verus! {

/// Ten to the power `n`.
pub open spec fn pow10(n: nat) -> nat
    decreases n,
{
    if n == 0 {
        1
    } else {
        10 * pow10((n - 1) as nat)
    }
}

/// Every element of `s` is a decimal digit.
pub open spec fn is_digits(s: Seq<u8>) -> bool {
    forall|i: int| 0 <= i < s.len() ==> s[i] < 10
}

/// The number that the digits of `s` denote, least significant digit first.
pub open spec fn value(s: Seq<u8>) -> nat
    decreases s.len(),
{
    if s.len() == 0 {
        0
    } else {
        (s[0] as nat) + 10 * value(s.drop_first())
    }
}

/// `s` is a digit sequence without a redundant most-significant zero: at
/// least one digit, and the last one is zero only when it is the only one.
pub open spec fn is_canonical(s: Seq<u8>) -> bool {
    &&& is_digits(s)
    &&& s.len() >= 1
    &&& (s.len() == 1 || s.last() != 0)
}

/// `s` with its most-significant zeros removed, as long as more than one
/// digit is left.
pub open spec fn trim(s: Seq<u8>) -> Seq<u8>
    decreases s.len(),
{
    if s.len() > 1 && s.last() == 0 {
        trim(s.drop_last())
    } else {
        s
    }
}

pub proof fn lemma_pow10_positive(n: nat)
    ensures
        pow10(n) >= 1,
    decreases n,
{
    if n > 0 {
        lemma_pow10_positive((n - 1) as nat);
    }
}

pub proof fn lemma_pow10_add(a: nat, b: nat)
    ensures
        pow10(a + b) == pow10(a) * pow10(b),
    decreases a,
{
    if a == 0 {
        assert(pow10(a) * pow10(b) == pow10(b)) by (nonlinear_arith)
            requires
                pow10(a) == 1,
        ;
    } else {
        lemma_pow10_add((a - 1) as nat, b);
        assert(a + b - 1 == (a - 1) + b);
        assert(pow10(a + b) == 10 * pow10(((a - 1) as nat) + b));
        assert(10 * (pow10((a - 1) as nat) * pow10(b)) == (10 * pow10((a - 1) as nat)) * pow10(b))
            by (nonlinear_arith);
    }
}

pub proof fn lemma_pow10_monotone(a: nat, b: nat)
    requires
        a <= b,
    ensures
        pow10(a) <= pow10(b),
    decreases b,
{
    if a < b {
        lemma_pow10_monotone(a, (b - 1) as nat);
    }
}

/// Multiplying by ten prepends a zero digit.
pub proof fn lemma_value_cons(d: u8, s: Seq<u8>)
    ensures
        value(seq![d] + s) == d + 10 * value(s),
{
    assert((seq![d] + s).drop_first() =~= s);
}

/// A single digit denotes itself.
pub proof fn lemma_value_single(s: Seq<u8>)
    requires
        s.len() == 1,
    ensures
        value(s) == s[0],
{
    assert(s.drop_first().len() == 0);
    assert(value(s.drop_first()) == 0);
}

/// A new most-significant digit `d` adds `d * 10^len`.
pub proof fn lemma_value_push(s: Seq<u8>, d: u8)
    ensures
        value(s.push(d)) == value(s) + d * pow10(s.len()),
    decreases s.len(),
{
    if s.len() == 0 {
        assert(s.push(d).drop_first() =~= Seq::<u8>::empty());
        assert(value(s.push(d)) == d + 10 * value(Seq::<u8>::empty()));
        assert(d * pow10(0) == d) by (nonlinear_arith)
            requires
                pow10(0) == 1,
        ;
    } else {
        let t = s.drop_first();
        lemma_value_push(t, d);
        assert(s.push(d).drop_first() =~= t.push(d));
        assert(s.push(d)[0] == s[0]);
        let p = pow10(t.len());
        assert(pow10(s.len()) == 10 * p);
        assert(10 * (d * p) == d * (10 * p)) by (nonlinear_arith);
    }
}

/// The value of a concatenation: the high part is shifted by the length of
/// the low part.
pub proof fn lemma_value_concat(a: Seq<u8>, b: Seq<u8>)
    ensures
        value(a + b) == value(a) + pow10(a.len()) * value(b),
    decreases b.len(),
{
    if b.len() == 0 {
        assert(a + b =~= a);
        assert(pow10(a.len()) * value(b) == 0) by (nonlinear_arith)
            requires
                value(b) == 0,
        ;
    } else {
        let b0 = b.drop_last();
        lemma_value_concat(a, b0);
        assert(a + b =~= (a + b0).push(b.last()));
        lemma_value_push(a + b0, b.last());
        assert(b =~= b0.push(b.last()));
        lemma_value_push(b0, b.last());
        lemma_pow10_add(a.len(), b0.len());
        let pa = pow10(a.len());
        let pb = pow10(b0.len());
        let vb = value(b0);
        let d = b.last() as nat;
        assert(pa * (vb + d * pb) == pa * vb + d * (pa * pb)) by (nonlinear_arith);
    }
}

/// The value of the low `k` digits plus the shifted value of the rest.
pub proof fn lemma_value_split(s: Seq<u8>, k: int)
    requires
        0 <= k <= s.len(),
    ensures
        value(s) == value(s.take(k)) + pow10(k as nat) * value(s.skip(k)),
{
    assert(s =~= s.take(k) + s.skip(k));
    lemma_value_concat(s.take(k), s.skip(k));
}

/// A sequence of `n` digits denotes a number below `10^n`.
pub proof fn lemma_value_bound(s: Seq<u8>)
    requires
        is_digits(s),
    ensures
        value(s) < pow10(s.len()),
    decreases s.len(),
{
    if s.len() > 0 {
        lemma_value_bound(s.drop_first());
    }
}

/// A nonzero most-significant digit puts the value at or above `10^(n-1)`.
pub proof fn lemma_value_lower(s: Seq<u8>)
    requires
        s.len() >= 1,
        s.last() != 0,
    ensures
        value(s) >= pow10((s.len() - 1) as nat),
{
    let s0 = s.drop_last();
    assert(s =~= s0.push(s.last()));
    lemma_value_push(s0, s.last());
    let p = pow10(s0.len());
    let d = s.last() as nat;
    assert(d * p >= p) by (nonlinear_arith)
        requires
            d >= 1,
    ;
}

/// A digit sequence denotes zero exactly when all of its digits are zero.
pub proof fn lemma_value_zero(s: Seq<u8>)
    ensures
        value(s) == 0 <==> (forall|i: int| 0 <= i < s.len() ==> s[i] == 0),
    decreases s.len(),
{
    if s.len() > 0 {
        let t = s.drop_first();
        lemma_value_zero(t);
        if value(s) == 0 {
            assert forall|i: int| 0 <= i < s.len() implies s[i] == 0 by {
                if i > 0 {
                    assert(t[i - 1] == s[i]);
                }
            }
        }
        if forall|i: int| 0 <= i < s.len() ==> s[i] == 0 {
            assert forall|i: int| 0 <= i < t.len() implies t[i] == 0 by {
                assert(t[i] == s[i + 1]);
            }
        }
    }
}

/// Removing most-significant zeros changes neither the value nor the
/// digit property, and leaves a canonical sequence unless `s` is empty.
pub proof fn lemma_trim(s: Seq<u8>)
    ensures
        value(trim(s)) == value(s),
        trim(s).len() <= s.len(),
        s.len() >= 1 ==> trim(s).len() >= 1,
        s.len() == 0 ==> trim(s).len() == 0,
        is_digits(s) ==> is_digits(trim(s)),
        is_digits(s) && s.len() >= 1 ==> is_canonical(trim(s)),
        trim(s) =~= s.take(trim(s).len() as int),
        forall|i: int| trim(s).len() <= i < s.len() ==> s[i] == 0,
    decreases s.len(),
{
    if s.len() > 1 && s.last() == 0 {
        let s0 = s.drop_last();
        lemma_trim(s0);
        assert(s =~= s0.push(0u8));
        lemma_value_push(s0, 0u8);
        assert(0 * pow10(s0.len()) == 0) by (nonlinear_arith);
        assert(forall|i: int| 0 <= i < s0.len() ==> s0[i] == s[i]);
    } else {
        assert(s.take(s.len() as int) =~= s);
    }
}

/// Among digit sequences of one length, the value decides every digit.
pub proof fn lemma_value_injective(a: Seq<u8>, b: Seq<u8>)
    requires
        is_digits(a),
        is_digits(b),
        a.len() == b.len(),
        value(a) == value(b),
    ensures
        a == b,
    decreases a.len(),
{
    if a.len() > 0 {
        let a1 = a.drop_first();
        let b1 = b.drop_first();
        assert(a[0] == b[0] && value(a1) == value(b1)) by {
            let x = a[0] as int;
            let y = b[0] as int;
            let p = value(a1) as int;
            let q = value(b1) as int;
            assert(x + 10 * p == y + 10 * q);
            assert(0 <= x < 10 && 0 <= y < 10);
        }
        assert(is_digits(a1)) by {
            assert(forall|i: int| 0 <= i < a1.len() ==> a1[i] == a[i + 1]);
        }
        assert(is_digits(b1)) by {
            assert(forall|i: int| 0 <= i < b1.len() ==> b1[i] == b[i + 1]);
        }
        lemma_value_injective(a1, b1);
        assert(a =~= seq![a[0]] + a1);
        assert(b =~= seq![b[0]] + b1);
    } else {
        assert(a =~= b);
    }
}

/// A number has exactly one canonical digit sequence.
pub proof fn lemma_canonical_unique(a: Seq<u8>, b: Seq<u8>)
    requires
        is_canonical(a),
        is_canonical(b),
        value(a) == value(b),
    ensures
        a == b,
{
    if a.len() != b.len() {
        let (lo, hi) = if a.len() < b.len() {
            (a, b)
        } else {
            (b, a)
        };
        lemma_value_bound(lo);
        lemma_value_lower(hi);
        lemma_pow10_monotone(lo.len(), (hi.len() - 1) as nat);
    } else {
        lemma_value_injective(a, b);
    }
}

/// Among canonical sequences the longer one denotes the larger number.
pub proof fn lemma_longer_is_larger(a: Seq<u8>, b: Seq<u8>)
    requires
        is_digits(a),
        b.len() > a.len(),
        b.last() != 0,
    ensures
        value(a) < value(b),
{
    lemma_value_bound(a);
    lemma_value_lower(b);
    lemma_pow10_monotone(a.len(), (b.len() - 1) as nat);
}

/// The digit of `s` at position `i`, zero beyond its end.
pub open spec fn digit_at(s: Seq<u8>, i: int) -> u8 {
    if 0 <= i < s.len() {
        s[i]
    } else {
        0
    }
}

/// The value of the lowest `i` digits of `s`; all of `s` when it is shorter.
pub open spec fn low_value(s: Seq<u8>, i: int) -> nat {
    if 0 <= i <= s.len() {
        value(s.take(i))
    } else {
        value(s)
    }
}

/// One more digit taken into the low value.
pub proof fn lemma_low_value_step(s: Seq<u8>, i: int)
    requires
        0 <= i,
    ensures
        low_value(s, i + 1) == low_value(s, i) + digit_at(s, i) * pow10(i as nat),
        low_value(s, 0) == 0,
        i >= s.len() ==> low_value(s, i) == value(s),
{
    assert(s.take(0) =~= Seq::<u8>::empty());
    if i < s.len() {
        assert(s.take(i + 1) =~= s.take(i).push(s[i]));
        lemma_value_push(s.take(i), s[i]);
    } else {
        assert(s.take(s.len() as int) =~= s);
        assert(0 * pow10(i as nat) == 0) by (nonlinear_arith);
    }
}

/// A canonical sequence whose value is below `10^k` has at most `k` digits.
pub proof fn lemma_len_bound(s: Seq<u8>, k: nat)
    requires
        is_canonical(s),
        value(s) < pow10(k),
        k >= 1,
    ensures
        s.len() <= k,
{
    if s.len() > k {
        if s.last() != 0 {
            lemma_value_lower(s);
            lemma_pow10_monotone(k, (s.len() - 1) as nat);
        }
    }
}

/// Two digit sequences of one length that agree above position `i` are
/// ordered as their digits at `i` are.
pub proof fn lemma_first_difference(a: Seq<u8>, b: Seq<u8>, i: int)
    requires
        is_digits(a),
        is_digits(b),
        a.len() == b.len(),
        0 <= i < a.len(),
        forall|k: int| i < k < a.len() ==> a[k] == b[k],
        a[i] < b[i],
    ensures
        value(a) < value(b),
{
    lemma_value_split(a, i);
    lemma_value_split(b, i);
    let ah = a.skip(i);
    let bh = b.skip(i);
    assert(ah.drop_first() =~= bh.drop_first());
    assert(value(ah) + 1 <= value(bh));
    assert(is_digits(a.take(i)));
    lemma_value_bound(a.take(i));
    let p = pow10(i as nat);
    let x = value(ah);
    let y = value(bh);
    assert(p * x + p <= p * y) by (nonlinear_arith)
        requires
            x + 1 <= y,
    ;
}

/// `s` is a one followed, toward the least significant end, by zeros only:
/// the canonical digits of a power of ten.
pub open spec fn is_one_then_zeros(s: Seq<u8>) -> bool {
    &&& s.len() >= 1
    &&& s.last() == 1
    &&& forall|i: int| 0 <= i < s.len() - 1 ==> s[i] == 0
}

/// A one above `k` zeros denotes `10^k`.
pub proof fn lemma_one_then_zeros_value(s: Seq<u8>)
    requires
        is_one_then_zeros(s),
    ensures
        value(s) == pow10((s.len() - 1) as nat),
{
    let s0 = s.drop_last();
    assert(s =~= s0.push(1u8));
    lemma_value_push(s0, 1u8);
    lemma_value_zero(s0);
    assert(1 * pow10(s0.len()) == pow10(s0.len())) by (nonlinear_arith);
}

/// The canonical digits of `10^k` are a one above `k` zeros.
pub proof fn lemma_power_of_ten_digits(s: Seq<u8>, k: nat)
    requires
        is_canonical(s),
        value(s) == pow10(k),
    ensures
        is_one_then_zeros(s),
        s.len() == k + 1,
{
    let t = Seq::new(k + 1, |i: int| if i == k { 1u8 } else { 0u8 });
    assert(is_one_then_zeros(t));
    lemma_one_then_zeros_value(t);
    lemma_canonical_unique(s, t);
}

/// The number of decimal digits of `n`; zero has one.
pub open spec fn digit_count(n: nat) -> nat
    decreases n,
{
    if n < 10 {
        1
    } else {
        1 + digit_count(n / 10)
    }
}

/// A canonical sequence has as many digits as its value has.
pub proof fn lemma_digit_count(s: Seq<u8>)
    requires
        is_canonical(s),
    ensures
        s.len() == digit_count(value(s)),
    decreases s.len(),
{
    if s.len() == 1 {
        lemma_value_single(s);
    } else {
        let t = s.drop_first();
        assert(t.last() == s.last());
        assert(is_digits(t)) by {
            assert(forall|i: int| 0 <= i < t.len() ==> t[i] == s[i + 1]);
        }
        lemma_digit_count(t);
        lemma_value_lower(t);
        lemma_pow10_positive((t.len() - 1) as nat);
        assert(value(s) == s[0] + 10 * value(t));
        assert(value(s) / 10 == value(t));
    }
}

/// Zeros below the digits of `s` multiply its value by a power of ten.
pub proof fn lemma_value_shift(k: nat, s: Seq<u8>)
    ensures
        value(Seq::new(k, |i: int| 0u8) + s) == value(s) * pow10(k),
        is_digits(s) ==> is_digits(Seq::new(k, |i: int| 0u8) + s),
{
    let z = Seq::new(k, |i: int| 0u8);
    lemma_value_concat(z, s);
    lemma_value_zero(z);
    assert(pow10(k) * value(s) == value(s) * pow10(k)) by (nonlinear_arith);
}

/// When two digit sequences of one length agree from position `t` on and
/// the first is zero below `t`, the first denotes the smaller number
/// exactly when the second is not zero below `t`.
pub proof fn lemma_zero_tail_order(a: Seq<u8>, b: Seq<u8>, t: int)
    requires
        a.len() == b.len(),
        0 <= t <= a.len(),
        forall|i: int| t <= i < a.len() ==> a[i] == b[i],
        forall|i: int| 0 <= i < t ==> a[i] == 0,
    ensures
        value(a) <= value(b),
        value(a) == value(b) <==> (forall|i: int| 0 <= i < t ==> b[i] == 0),
{
    lemma_value_split(a, t);
    lemma_value_split(b, t);
    assert(a.skip(t) =~= b.skip(t));
    lemma_value_zero(a.take(t));
    lemma_value_zero(b.take(t));
    let bt = b.take(t);
    assert(forall|i: int| 0 <= i < t ==> bt[i] == b[i]);
    if forall|i: int| 0 <= i < t ==> b[i] == 0 {
        assert(forall|i: int| 0 <= i < bt.len() ==> bt[i] == 0);
    }
    if value(bt) == 0 {
        assert forall|i: int| 0 <= i < t implies b[i] == 0 by {
            assert(bt[i] == 0);
        }
    }
}

/// The canonical digits of `n`, least significant first.
pub open spec fn digits_of(n: nat) -> Seq<u8>
    decreases n,
{
    if n < 10 {
        seq![n as u8]
    } else {
        seq![(n % 10) as u8] + digits_of(n / 10)
    }
}

/// `digits_of(n)` is canonical and denotes `n`.
pub proof fn lemma_digits_of(n: nat)
    ensures
        is_canonical(digits_of(n)),
        value(digits_of(n)) == n,
        digits_of(n).len() == digit_count(n),
    decreases n,
{
    if n < 10 {
        lemma_value_single(digits_of(n));
    } else {
        lemma_digits_of(n / 10);
        let t = digits_of(n / 10);
        let d = (n % 10) as u8;
        lemma_value_cons(d, t);
        let s = seq![d] + t;
        assert(s.last() == t.last());
        if t.len() == 1 {
            lemma_value_single(t);
        }
        assert(is_digits(s)) by {
            assert forall|i: int| 0 <= i < s.len() implies s[i] < 10 by {
                if i > 0 {
                    assert(s[i] == t[i - 1]);
                }
            }
        }
    }
}

/// A canonical sequence is the canonical digits of its value.
pub proof fn lemma_canonical_is_digits_of(s: Seq<u8>)
    requires
        is_canonical(s),
    ensures
        s == digits_of(value(s)),
{
    lemma_digits_of(value(s));
    lemma_canonical_unique(s, digits_of(value(s)));
}

} // verus!
