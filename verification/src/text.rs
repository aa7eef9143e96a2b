//! The textual form of decimals: what a literal denotes and how a number is
//! written.
//!
//! A literal is an optional sign, then digits with at most one `.` among
//! them; spaces are ignored wherever they stand.

use vstd::prelude::*;
use vstd::string::StringExecFns;
use crate::decimal::{abs, signed, Decimal};
use crate::magnitude::{digits_of, is_digits, lemma_value_cons, pow10, value};
use crate::error::NumError;

verus! {

/// The digit that `c` writes, if it writes one.
pub open spec fn char_digit(c: char) -> Option<u8> {
    if c == '0' {
        Some(0u8)
    } else if c == '1' {
        Some(1u8)
    } else if c == '2' {
        Some(2u8)
    } else if c == '3' {
        Some(3u8)
    } else if c == '4' {
        Some(4u8)
    } else if c == '5' {
        Some(5u8)
    } else if c == '6' {
        Some(6u8)
    } else if c == '7' {
        Some(7u8)
    } else if c == '8' {
        Some(8u8)
    } else if c == '9' {
        Some(9u8)
    } else {
        None
    }
}

/// The character that writes the digit `d`.
pub open spec fn digit_char(d: u8) -> char {
    if d == 0 {
        '0'
    } else if d == 1 {
        '1'
    } else if d == 2 {
        '2'
    } else if d == 3 {
        '3'
    } else if d == 4 {
        '4'
    } else if d == 5 {
        '5'
    } else if d == 6 {
        '6'
    } else if d == 7 {
        '7'
    } else if d == 8 {
        '8'
    } else {
        '9'
    }
}

/// `s` with every occurrence of `c` taken out.
pub open spec fn without(s: Seq<char>, c: char) -> Seq<char>
    decreases s.len(),
{
    if s.len() == 0 {
        s
    } else if s.last() == c {
        without(s.drop_last(), c)
    } else {
        without(s.drop_last(), c).push(s.last())
    }
}

/// How often `c` occurs in `s`.
pub open spec fn count(s: Seq<char>, c: char) -> nat
    decreases s.len(),
{
    if s.len() == 0 {
        0
    } else if s.last() == c {
        count(s.drop_last(), c) + 1
    } else {
        count(s.drop_last(), c)
    }
}

/// `b` holds digits and at most one `.`, nothing else.
pub open spec fn body_ok(b: Seq<char>) -> bool
    decreases b.len(),
{
    if b.len() == 0 {
        true
    } else {
        &&& body_ok(b.drop_last())
        &&& if b.last() == '.' {
            count(b.drop_last(), '.') == 0
        } else {
            char_digit(b.last()) is Some
        }
    }
}

/// The number that the digits of `b` write, most significant first, the
/// `.` left aside.
pub open spec fn body_value(b: Seq<char>) -> nat
    decreases b.len(),
{
    if b.len() == 0 {
        0
    } else {
        match char_digit(b.last()) {
            Some(d) => 10 * body_value(b.drop_last()) + d as nat,
            None => body_value(b.drop_last()),
        }
    }
}

/// The number of digits of `b` behind its `.`; zero when it has none.
pub open spec fn body_scale(b: Seq<char>) -> nat
    decreases b.len(),
{
    if b.len() == 0 || b.last() == '.' || count(b.drop_last(), '.') == 0 {
        0
    } else {
        body_scale(b.drop_last()) + 1
    }
}

/// What the literal `s` denotes, not yet in lowest terms; `None` when `s`
/// is not a literal: when nothing but spaces is in it, or when what follows
/// the optional sign holds a second `.` or anything that is not a digit.
pub open spec fn parse_spec(s: Seq<char>) -> Option<Decimal> {
    let t = without(s, ' ');
    if t.len() == 0 {
        None
    } else {
        let body = if t[0] == '-' || t[0] == '+' {
            t.drop_first()
        } else {
            t
        };
        if body_ok(body) {
            Some(Decimal { num: signed(t[0] == '-', body_value(body)), scale: body_scale(body) })
        } else {
            None
        }
    }
}

/// The characters of the digits `ds`, most significant first.
pub open spec fn msf_chars(ds: Seq<u8>) -> Seq<char> {
    Seq::new(ds.len(), |i: int| digit_char(ds[ds.len() - 1 - i]))
}

/// `n` times the character `0`.
pub open spec fn zero_chars(n: nat) -> Seq<char> {
    Seq::new(n, |i: int| '0')
}

/// The digits above the scale, most significant first, or a single `0`
/// when there are none.
pub open spec fn whole_chars(ds: Seq<u8>, scale: nat) -> Seq<char> {
    if ds.len() > scale {
        msf_chars(ds.skip(scale as int))
    } else {
        seq!['0']
    }
}

/// Nothing when the scale is zero; else a `.` followed by the `scale`
/// digits below it, with zeros in front of them where the digits run
/// short.
pub open spec fn fraction_chars(ds: Seq<u8>, scale: nat) -> Seq<char> {
    if scale == 0 {
        Seq::<char>::empty()
    } else if ds.len() >= scale {
        seq!['.'] + msf_chars(ds.take(scale as int))
    } else {
        seq!['.'] + zero_chars((scale - ds.len()) as nat) + msf_chars(ds)
    }
}

/// The text of the number with the given sign, digits (least significant
/// first) and scale: a `-` when negative, the whole part, the fraction.
pub open spec fn format_parts_spec(negative: bool, ds: Seq<u8>, scale: nat) -> Seq<char> {
    let sign = if negative {
        seq!['-']
    } else {
        Seq::<char>::empty()
    };
    sign + whole_chars(ds, scale) + fraction_chars(ds, scale)
}

/// The text of the decimal `d`.
pub open spec fn format_spec(d: Decimal) -> Seq<char> {
    format_parts_spec(d.num < 0, digits_of(abs(d.num)), d.scale)
}

/// Cutting a text short keeps it free of a second `.` and of other
/// characters: a prefix that is no body makes the whole text none.
pub proof fn lemma_body_ok_prefix(b: Seq<char>, k: int)
    requires
        0 <= k <= b.len(),
        body_ok(b),
    ensures
        body_ok(b.take(k)),
    decreases b.len(),
{
    if k < b.len() {
        lemma_body_ok_prefix(b.drop_last(), k);
        assert(b.drop_last().take(k) =~= b.take(k));
    } else {
        assert(b.take(k) =~= b);
    }
}

/// The characters of the digits `m`, in their own order.
pub open spec fn digit_chars(m: Seq<u8>) -> Seq<char> {
    Seq::new(m.len(), |i: int| digit_char(m[i]))
}

/// Taking out a character that does not occur changes nothing.
pub proof fn lemma_without_absent(s: Seq<char>, c: char)
    requires
        forall|i: int| 0 <= i < s.len() ==> s[i] != c,
    ensures
        without(s, c) == s,
    decreases s.len(),
{
    if s.len() > 0 {
        lemma_without_absent(s.drop_last(), c);
        assert(s.drop_last().push(s.last()) =~= s);
    }
}

/// What a `.` at the end of a text does to its reading.
pub proof fn lemma_body_dot(b: Seq<char>)
    ensures
        body_ok(b.push('.')) == (body_ok(b) && count(b, '.') == 0),
        body_value(b.push('.')) == body_value(b),
        body_scale(b.push('.')) == 0,
        count(b.push('.'), '.') == count(b, '.') + 1,
{
    assert(b.push('.').drop_last() =~= b);
}

/// What digits at the end of a text do to its reading: they shift its
/// value, and count as fractional digits once a `.` stands before them.
pub proof fn lemma_body_digits(b: Seq<char>, m: Seq<u8>)
    requires
        is_digits(m),
    ensures
        body_ok(b + digit_chars(m)) == body_ok(b),
        count(b + digit_chars(m), '.') == count(b, '.'),
        body_value(b + digit_chars(m)) == body_value(b) * pow10(m.len()) + value(m.reverse()),
        body_scale(b + digit_chars(m)) == (if count(b, '.') > 0 {
            body_scale(b) + m.len()
        } else {
            0
        }),
    decreases m.len(),
{
    if m.len() == 0 {
        assert(b + digit_chars(m) =~= b);
        assert(m.reverse() =~= Seq::<u8>::empty());
        assert(body_value(b) * pow10(0) == body_value(b)) by (nonlinear_arith)
            requires
                pow10(0) == 1,
        ;
    } else {
        let m0 = m.drop_last();
        let d = m.last();
        let whole = b + digit_chars(m);
        let before = b + digit_chars(m0);
        lemma_body_digits(b, m0);
        assert(whole.drop_last() =~= before);
        assert(whole.last() == digit_char(d));
        assert(char_digit(digit_char(d)) == Some(d));
        assert(m.reverse() =~= seq![d] + m0.reverse());
        lemma_value_cons(d, m0.reverse());
        let v = body_value(b) as int;
        let p = pow10(m0.len()) as int;
        assert(pow10(m.len()) == 10 * p);
        assert(10 * (v * p) == v * (10 * p)) by (nonlinear_arith);
    }
}

/// `c` is a digit or the decimal point.
pub open spec fn is_body_char(c: char) -> bool {
    c == '.' || char_digit(c) is Some
}

/// The whole part reads as the digits above the scale.
pub proof fn lemma_whole_chars(ds: Seq<u8>, scale: nat)
    requires
        is_digits(ds),
    ensures
        whole_chars(ds, scale).len() >= 1,
        body_ok(whole_chars(ds, scale)),
        count(whole_chars(ds, scale), '.') == 0,
        body_value(whole_chars(ds, scale)) == (if ds.len() > scale {
            value(ds.skip(scale as int))
        } else {
            0
        }),
        forall|i: int|
            0 <= i < whole_chars(ds, scale).len() ==> char_digit(
                #[trigger] whole_chars(ds, scale)[i],
            ) is Some,
{
    let w: Seq<u8> = if ds.len() > scale {
        ds.skip(scale as int).reverse()
    } else {
        seq![0u8]
    };
    let empty = Seq::<char>::empty();
    assert(digit_chars(w) =~= whole_chars(ds, scale));
    assert(empty + digit_chars(w) =~= digit_chars(w));
    lemma_body_digits(empty, w);
    assert(0 * pow10(w.len()) == 0) by (nonlinear_arith);
    if ds.len() > scale {
        assert(w.reverse() =~= ds.skip(scale as int));
    } else {
        assert(w.reverse() =~= w);
        crate::magnitude::lemma_value_single(w);
    }
    assert forall|i: int| 0 <= i < whole_chars(ds, scale).len() implies char_digit(
        #[trigger] whole_chars(ds, scale)[i],
    ) is Some by {
        assert(whole_chars(ds, scale)[i] == digit_char(w[i]));
    }
}

/// A fraction behind a text without a `.` shifts its value by the scale
/// and adds the digits below the scale.
pub proof fn lemma_fraction_chars(b: Seq<char>, ds: Seq<u8>, scale: nat)
    requires
        is_digits(ds),
        scale > 0,
        body_ok(b),
        count(b, '.') == 0,
    ensures
        body_ok(b + fraction_chars(ds, scale)),
        body_scale(b + fraction_chars(ds, scale)) == scale,
        body_value(b + fraction_chars(ds, scale)) == body_value(b) * pow10(scale) + (if ds.len()
            >= scale {
            value(ds.take(scale as int))
        } else {
            value(ds)
        }),
        forall|i: int|
            0 <= i < fraction_chars(ds, scale).len() ==> is_body_char(
                #[trigger] fraction_chars(ds, scale)[i],
            ),
{
    let n = ds.len();
    let f: Seq<u8> = if n >= scale {
        ds.take(scale as int).reverse()
    } else {
        Seq::new((scale - n) as nat, |i: int| 0u8) + ds.reverse()
    };
    let fr = fraction_chars(ds, scale);
    assert(fr =~= seq!['.'] + digit_chars(f));
    assert(b + fr =~= b.push('.') + digit_chars(f));
    lemma_body_dot(b);
    lemma_body_digits(b.push('.'), f);
    if n >= scale {
        assert(f.reverse() =~= ds.take(scale as int));
    } else {
        let z = Seq::new((scale - n) as nat, |i: int| 0u8);
        assert(f.reverse() =~= ds + z);
        crate::magnitude::lemma_value_concat(ds, z);
        crate::magnitude::lemma_value_zero(z);
        assert(pow10(n) * 0 == 0) by (nonlinear_arith);
    }
    assert forall|i: int| 0 <= i < fr.len() implies is_body_char(#[trigger] fr[i]) by {
        if i > 0 {
            assert(fr[i] == digit_char(f[i - 1]));
        }
    }
}

/// The characters of `s`.
fn chars_of(s: &str) -> (v: Vec<char>)
    ensures
        v@ == s@,
{
    let mut v: Vec<char> = Vec::new();
    for c in it: s.chars()
        invariant
            v@ == it.seq().take(it.index() as int),
            it.seq() == s@,
    {
        v.push(c);
    }
    v
}

/// The digit that `c` writes, if it writes one.
fn digit_from_char(c: char) -> (r: Option<u8>)
    ensures
        r == char_digit(c),
{
    match c {
        '0' => Some(0),
        '1' => Some(1),
        '2' => Some(2),
        '3' => Some(3),
        '4' => Some(4),
        '5' => Some(5),
        '6' => Some(6),
        '7' => Some(7),
        '8' => Some(8),
        '9' => Some(9),
        _ => None,
    }
}

/// The digits of `v` in the opposite order.
fn reversed(v: &Vec<u8>) -> (w: Vec<u8>)
    ensures
        w@ == v@.reverse(),
{
    let mut w: Vec<u8> = Vec::new();
    let n = v.len();
    let mut i: usize = 0;
    while i < n
        invariant
            i <= n,
            n == v.len(),
            w.len() == i,
            forall|k: int| 0 <= k < i ==> w[k] == v[n - 1 - k],
        decreases n - i,
    {
        w.push(v[n - 1 - i]);
        i += 1;
    }
    proof {
        assert(w@ =~= v@.reverse());
    }
    w
}

/// Reads a literal: its sign, its digits from the least significant one,
/// and the number of digits behind the `.`. Fails with `Format` exactly
/// when `s` is not a literal.
pub fn parse_parts(s: &str) -> (r: Result<(bool, Vec<u8>, u32), NumError>)
    requires
        s@.len() <= u32::MAX,
    ensures
        match r {
            Ok((negative, digits, scale)) => {
                &&& is_digits(digits@)
                &&& parse_spec(s@) == Some(
                    Decimal { num: signed(negative, value(digits@)), scale: scale as nat },
                )
            },
            Err(e) => parse_spec(s@) is None && e == NumError::Format,
        },
{
    let cs = chars_of(s);
    // the text without its spaces
    let mut t: Vec<char> = Vec::new();
    let mut i: usize = 0;
    while i < cs.len()
        invariant
            i <= cs.len(),
            t.len() <= i,
            t@ == without(cs@.take(i as int), ' '),
        decreases cs.len() - i,
    {
        proof {
            assert(cs@.take(i + 1).drop_last() =~= cs@.take(i as int));
        }
        if cs[i] != ' ' {
            t.push(cs[i]);
        }
        i += 1;
    }
    proof {
        assert(cs@.take(cs.len() as int) =~= cs@);
    }
    if t.len() == 0 {
        return Err(NumError::Format);
    }
    let negative = t[0] == '-';
    let start: usize = if t[0] == '-' || t[0] == '+' {
        1
    } else {
        0
    };
    let ghost body = t@.skip(start as int);
    proof {
        assert(t@.skip(0) =~= t@);
        assert(t@.skip(1) =~= t@.drop_first());
        assert(body.take(0) =~= Seq::<char>::empty());
    }
    // the digits as they are written, and the number of them behind the dot
    let mut written: Vec<u8> = Vec::new();
    let mut dot_found = false;
    let mut power: u32 = 0;
    let mut j: usize = start;
    while j < t.len()
        invariant
            start <= j <= t.len(),
            t.len() <= u32::MAX,
            t.len() > 0,
            t@ == without(s@, ' '),
            start == (if t[0] == '-' || t[0] == '+' { 1usize } else { 0usize }),
            negative == (t[0] == '-'),
            body == t@.skip(start as int),
            body == (if t[0] == '-' || t[0] == '+' { t@.drop_first() } else { t@ }),
            body_ok(body.take(j - start)),
            dot_found == (count(body.take(j - start), '.') > 0),
            power == body_scale(body.take(j - start)),
            power <= j - start,
            is_digits(written@),
            value(written@.reverse()) == body_value(body.take(j - start)),
        decreases t.len() - j,
    {
        let c = t[j];
        let ghost before = body.take(j - start);
        let ghost after = body.take(j - start + 1);
        proof {
            assert(after.drop_last() =~= before);
            assert(after.last() == c);
        }
        if c == '.' {
            if dot_found {
                proof {
                    assert(!body_ok(after));
                    if body_ok(body) {
                        lemma_body_ok_prefix(body, j - start + 1);
                    }
                }
                return Err(NumError::Format);
            }
            dot_found = true;
            power = 0;
        } else {
            match digit_from_char(c) {
                Some(d) => {
                    let ghost w0 = written@;
                    written.push(d);
                    proof {
                        assert(written@.reverse() =~= seq![d] + w0.reverse());
                        lemma_value_cons(d, w0.reverse());
                    }
                    if dot_found {
                        power += 1;
                    }
                },
                None => {
                    proof {
                        assert(!body_ok(after));
                        if body_ok(body) {
                            lemma_body_ok_prefix(body, j - start + 1);
                        }
                    }
                    return Err(NumError::Format);
                },
            }
        }
        j += 1;
    }
    proof {
        assert(body.take(t.len() - start) =~= body);
        assert(is_digits(written@.reverse()));
    }
    Ok((negative, reversed(&written), power))
}

/// The text of one digit.
pub(crate) fn digit_str(d: u8) -> (r: &'static str)
    requires
        d < 10,
    ensures
        r@ == seq![digit_char(d)],
{
    proof {
        reveal_strlit("0");
        reveal_strlit("1");
        reveal_strlit("2");
        reveal_strlit("3");
        reveal_strlit("4");
        reveal_strlit("5");
        reveal_strlit("6");
        reveal_strlit("7");
        reveal_strlit("8");
        reveal_strlit("9");
    }
    let r = match d {
        0 => "0",
        1 => "1",
        2 => "2",
        3 => "3",
        4 => "4",
        5 => "5",
        6 => "6",
        7 => "7",
        8 => "8",
        _ => "9",
    };
    proof {
        assert(r@ =~= seq![digit_char(d)]);
    }
    r
}

/// Appends the digits of `abs` from position `hi - 1` down to `lo`.
fn append_digits(out: &mut String, abs: &Vec<u8>, lo: usize, hi: usize)
    requires
        lo <= hi <= abs.len(),
        is_digits(abs@),
    ensures
        final(out)@ == old(out)@ + msf_chars(abs@.subrange(lo as int, hi as int)),
{
    let ghost part = abs@.subrange(lo as int, hi as int);
    let mut k: usize = hi;
    while k > lo
        invariant
            lo <= k <= hi,
            hi <= abs.len(),
            is_digits(abs@),
            part == abs@.subrange(lo as int, hi as int),
            out@ == old(out)@ + msf_chars(part).take(hi - k),
        decreases k,
    {
        k -= 1;
        let ghost o0 = out@;
        out.append(digit_str(abs[k]));
        proof {
            assert(msf_chars(part).take(hi - k) =~= msf_chars(part).take(hi - k - 1).push(
                digit_char(abs[k as int]),
            ));
            assert(out@ =~= old(out)@ + msf_chars(part).take(hi - k));
        }
    }
    proof {
        assert(msf_chars(part).take(hi - lo) =~= msf_chars(part));
    }
}

/// Writes the number of the given sign, digits and scale.
pub fn format_parts(negative: bool, abs: &Vec<u8>, power: u32) -> (out: String)
    requires
        is_digits(abs@),
    ensures
        out@ == format_parts_spec(negative, abs@, power as nat),
{
    let mut out = String::new();
    proof {
        reveal_strlit("-");
        reveal_strlit("0");
        reveal_strlit(".");
    }
    if negative {
        out.append("-");
    }
    let ghost sign = out@;
    assert(sign =~= if negative { seq!['-'] } else { Seq::<char>::empty() });
    let n = abs.len();
    let scale = power as usize;
    if n > scale {
        append_digits(&mut out, abs, scale, n);
        proof {
            assert(abs@.subrange(scale as int, n as int) =~= abs@.skip(scale as int));
        }
    } else {
        out.append("0");
        proof {
            assert("0"@ =~= seq!['0']);
        }
    }
    let ghost whole = out@;
    if scale > 0 {
        out.append(".");
        proof {
            assert("."@ =~= seq!['.']);
        }
        if n >= scale {
            append_digits(&mut out, abs, 0, scale);
            proof {
                assert(abs@.subrange(0, scale as int) =~= abs@.take(scale as int));
            }
        } else {
            let mut z: usize = 0;
            while z < scale - n
                invariant
                    z <= scale - n,
                    n < scale,
                    out@ == whole + seq!['.'] + zero_chars(z as nat),
                decreases scale - n - z,
            {
                out.append("0");
                proof {
                    reveal_strlit("0");
                    assert("0"@ =~= seq!['0']);
                    assert(zero_chars((z + 1) as nat) =~= zero_chars(z as nat).push('0'));
                    assert(out@ =~= whole + seq!['.'] + zero_chars((z + 1) as nat));
                }
                z += 1;
            }
            append_digits(&mut out, abs, 0, n);
            proof {
                assert(abs@.subrange(0, n as int) =~= abs@);
            }
        }
    }
    proof {
        assert(out@ =~= format_parts_spec(negative, abs@, power as nat));
    }
    out
}

} // verus!
