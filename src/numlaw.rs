//! A number's text reads back as the number, up to trailing zeros.
use vstd::prelude::*;
use crate::number::{decimal_of, number_parts, number_value, trailing_zeros};
use crate::text::{dec_digits, digit_value, is_digit, zeros};
use crate::token::{digit_end, digits_val, lemma_digit_end_is};
use crate::value::{Decimal, digits_at_least, magnitude_text, number_text, sign_text, strip_zeros};

verus! {

pub open spec fn pow10(n: nat) -> nat
    decreases n,
{
    if n == 0 {
        1
    } else {
        10 * pow10((n - 1) as nat)
    }
}

/// `m * 10^e` with the trailing zeros of `m` moved into the exponent; zero
/// has the exponent 0.
pub open spec fn canonical(m: nat, e: int) -> (nat, int)
    decreases m,
{
    if m == 0 {
        (0, 0)
    } else if m % 10 == 0 {
        canonical(m / 10, e + 1)
    } else {
        (m, e)
    }
}

proof fn lemma_pow10_pos(n: nat)
    ensures
        pow10(n) >= 1,
    decreases n,
{
    if n > 0 {
        lemma_pow10_pos((n - 1) as nat);
    }
}

/// Zeros at the end multiply what digits spell by a power of ten.
proof fn lemma_append_zeros(x: Seq<char>, r: nat)
    ensures
        digits_val(x + zeros(r)) == digits_val(x) * pow10(r),
    decreases r,
{
    if r == 0 {
        assert(x + zeros(0) =~= x);
        assert(pow10(0) == 1);
    } else {
        assert((x + zeros(r)).drop_last() =~= x + zeros((r - 1) as nat));
        lemma_append_zeros(x, (r - 1) as nat);
        assert((x + zeros(r)).last() == '0');
        assert(digit_value('0') == 0);
        assert(digits_val(x + zeros(r)) == digits_val(x + zeros((r - 1) as nat)) * 10);
        assert(digits_val(x) * pow10((r - 1) as nat) * 10 == digits_val(x) * pow10(r)) by (
        nonlinear_arith)
            requires
                pow10(r) == 10 * pow10((r - 1) as nat);
    }
}

/// What digits spell is what they spell without their trailing zeros, times
/// a power of ten; without those zeros it ends in no zero, unless it is zero.
proof fn lemma_strip_value(x: Seq<char>)
    requires
        forall|i: int| 0 <= i < x.len() ==> is_digit(#[trigger] x[i]),
    ensures
        trailing_zeros(x) <= x.len(),
        digits_val(x) == digits_val(x.subrange(0, x.len() - trailing_zeros(x))) * pow10(
            trailing_zeros(x),
        ),
        digits_val(x.subrange(0, x.len() - trailing_zeros(x))) == 0 || digits_val(
            x.subrange(0, x.len() - trailing_zeros(x)),
        ) % 10 != 0,
    decreases x.len(),
{
    let t = trailing_zeros(x);
    if x.len() > 0 && x.last() == '0' {
        let y = x.drop_last();
        lemma_strip_value(y);
        let ty = trailing_zeros(y);
        assert(x.subrange(0, x.len() - t) =~= y.subrange(0, y.len() - ty));
        assert(x =~= y + zeros(1));
        lemma_append_zeros(y, 1);
        assert(pow10(0) == 1);
        assert(pow10(1) == 10);
        assert(t == 1 + ty);
        assert(pow10(t) == 10 * pow10(ty));
        let v = digits_val(y.subrange(0, y.len() - ty));
        assert(digits_val(y) == v * pow10(ty));
        assert(v * pow10(ty) * pow10(1) == v * pow10(t)) by (nonlinear_arith)
            requires
                pow10(t) == 10 * pow10(ty),
                pow10(1) == 10;
    } else {
        assert(t == 0);
        assert(pow10(0) == 1);
        assert(x.subrange(0, x.len() as int) =~= x);
        if x.len() > 0 {
            assert(x.drop_last() =~= x.subrange(0, x.len() - 1));
            let dv = digit_value(x.last());
            assert(is_digit(x[x.len() - 1]));
            assert(digits_val(x) == digits_val(x.drop_last()) * 10 + dv);
            assert(dv < 10);
            let w = digits_val(x.drop_last());
            assert((w * 10 + dv) % 10 == dv) by (nonlinear_arith)
                requires
                    dv < 10;
        }
    }
}

/// Moving a power of ten from the exponent into a non-zero mantissa keeps the canonical form.
proof fn lemma_canonical_shift(m: nat, e: int, j: nat)
    requires
        m != 0,
    ensures
        canonical(m * pow10(j), e - j) == canonical(m, e),
    decreases j,
{
    if j > 0 {
        let mj = m * pow10(j);
        let m1 = m * pow10((j - 1) as nat);
        assert(mj == m1 * 10) by (nonlinear_arith)
            requires
                pow10(j) == 10 * pow10((j - 1) as nat),
                mj == m * pow10(j),
                m1 == m * pow10((j - 1) as nat);
        lemma_pow10_pos((j - 1) as nat);
        assert(m1 != 0) by (nonlinear_arith)
            requires
                m != 0,
                pow10((j - 1) as nat) >= 1,
                m1 == m * pow10((j - 1) as nat);
        assert(mj % 10 == 0 && mj / 10 == m1 && mj != 0) by (nonlinear_arith)
            requires
                mj == m1 * 10,
                m1 != 0;
        lemma_canonical_shift(m, e, (j - 1) as nat);
        assert(canonical(mj, e - j) == canonical(m1, e - j + 1));
    } else {
        assert(pow10(0) == 1);
        assert(m * 1 == m);
    }
}

/// The canonical form of `v * 10^r` where `v` ends in no zero.
proof fn lemma_canonical_of(v: nat, r: nat, e: int)
    requires
        v == 0 || v % 10 != 0,
    ensures
        canonical(v * pow10(r), e) == (if v == 0 {
            (0nat, 0int)
        } else {
            (v, e + r)
        }),
{
    if v == 0 {
        assert(v * pow10(r) == 0);
    } else {
        lemma_canonical_shift(v, e + r, r);
    }
}


proof fn lemma_pow10_add(a: nat, b: nat)
    ensures
        pow10(a + b) == pow10(a) * pow10(b),
    decreases a,
{
    if a == 0 {
        assert(pow10(0) == 1);
    } else {
        lemma_pow10_add((a - 1) as nat, b);
        assert(pow10(a + b) == 10 * pow10((a - 1 + b) as nat));
        assert(10 * (pow10((a - 1) as nat) * pow10(b)) == (10 * pow10((a - 1) as nat)) * pow10(b))
            by (nonlinear_arith);
    }
}

/// A text is what is left once its trailing zeros are taken off, then those zeros.
proof fn lemma_strip_zeros(s: Seq<char>)
    ensures
        strip_zeros(s).len() <= s.len(),
        s == strip_zeros(s) + zeros((s.len() - strip_zeros(s).len()) as nat),
        strip_zeros(s).len() == 0 || strip_zeros(s).last() != '0',
    decreases s.len(),
{
    if s.len() > 0 && s.last() == '0' {
        lemma_strip_zeros(s.drop_last());
        let t = strip_zeros(s.drop_last());
        let n1 = (s.len() - 1 - t.len()) as nat;
        assert(s =~= s.drop_last().push('0'));
        assert(zeros(n1 + 1) =~= zeros(n1).push('0'));
        assert(s =~= t + zeros(n1 + 1));
    } else {
        assert(s =~= s + zeros(0));
    }
}

pub open spec fn digit_text(s: Seq<char>) -> bool {
    forall|i: int| 0 <= i < s.len() ==> is_digit(#[trigger] s[i])
}

proof fn lemma_dec_digit_text(n: nat)
    ensures
        digit_text(dec_digits(n)),
        dec_digits(n).len() >= 1,
        digits_val(dec_digits(n)) == n,
{
    crate::laws::lemma_dec_digits(n);
}

/// How a number's text splits into sign, digits before the point and digits after it.
proof fn lemma_number_parts(neg: bool, ip: Seq<char>, fp: Seq<char>)
    requires
        ip.len() >= 1,
        digit_text(ip),
        digit_text(fp),
    ensures
        number_parts(
            sign_text(neg) + (if fp.len() == 0 {
                ip
            } else {
                ip + seq!['.'] + fp
            }),
        ) == Some((neg, ip, fp, 0int)),
{
    let mag = if fp.len() == 0 {
        ip
    } else {
        ip + seq!['.'] + fp
    };
    let s = sign_text(neg) + mag;
    let a: int = if neg {
        1
    } else {
        0
    };
    assert(s.subrange(a, s.len() as int) =~= mag);
    assert(neg == (s.len() > 0 && s[0] == '-') && neg == (s.len() > 0 && (s[0] == '-' || s[0]
        == '+'))) by {
        if !neg {
            assert(s[0] == ip[0]);
            assert(is_digit(ip[0]));
        }
    }
    let i1 = a + ip.len();
    assert forall|q: int| a <= q < i1 implies is_digit(#[trigger] s[q]) by {
        assert(s[q] == ip[q - a]);
    }
    if fp.len() == 0 {
        lemma_digit_end_is(s, a, i1);
        lemma_digit_end_is(s, i1, i1);
        assert(s.subrange(a, i1) =~= ip);
        assert(s.subrange(i1, i1) =~= fp);
    } else {
        assert(s[i1] == '.');
        lemma_digit_end_is(s, a, i1);
        assert forall|q: int| i1 + 1 <= q < s.len() implies is_digit(#[trigger] s[q]) by {
            assert(s[q] == fp[q - i1 - 1]);
        }
        lemma_digit_end_is(s, i1 + 1, s.len() as int);
        assert(s.subrange(a, i1) =~= ip);
        assert(s.subrange(i1 + 1, s.len() as int) =~= fp);
    }
}


pub open spec fn mag_shape(ip: Seq<char>, fp: Seq<char>) -> Seq<char> {
    if fp.len() == 0 {
        ip
    } else {
        ip + seq!['.'] + fp
    }
}

proof fn lemma_canonical_le(m: nat, e: int)
    ensures
        canonical(m, e).0 <= m,
    decreases m,
{
    if m != 0 && m % 10 == 0 {
        lemma_canonical_le(m / 10, e + 1);
    }
}

/// The text of a number with a negative exponent: digits, then the point and
/// the digits after it without trailing zeros, where any are left.
proof fn lemma_mag_negative(m: nat, k: nat)
    requires
        k >= 1,
        m != 0,
    ensures
        ({
            let full = digits_at_least(m, k);
            let l = full.len();
            let ip = full.subrange(0, l - k);
            let fp = strip_zeros(full.subrange(l - k, l as int));
            &&& l >= k + 1
            &&& magnitude_text(m, -k) == mag_shape(ip, fp)
            &&& digit_text(ip)
            &&& digit_text(fp)
            &&& fp.len() <= k
            &&& digits_val(ip + fp) * pow10((k - fp.len()) as nat) == m
        }),
{
    let d = dec_digits(m);
    lemma_dec_digit_text(m);
    let full = digits_at_least(m, k);
    let l = full.len();
    if d.len() <= k {
        crate::laws::lemma_leading_zeros((k + 1 - d.len()) as nat, d);
        assert forall|i: int| 0 <= i < full.len() implies is_digit(#[trigger] full[i]) by {
            let z = (k + 1 - d.len()) as nat;
            if i >= z {
                assert(full[i] == d[i - z]);
            }
        }
    }
    assert(digits_val(full) == m);
    assert(digit_text(full));
    let ip = full.subrange(0, l - k);
    let fpr = full.subrange(l - k, l as int);
    let fp = strip_zeros(fpr);
    lemma_strip_zeros(fpr);
    let r = (k - fp.len()) as nat;
    assert(full =~= ip + fpr);
    assert(fpr.len() == k);
    assert(fpr == fp + zeros(r));
    assert(ip + fpr =~= ip + fp + zeros(r));
    lemma_append_zeros(ip + fp, r);
    assert(digit_text(ip));
    assert forall|i: int| 0 <= i < fp.len() implies is_digit(#[trigger] fp[i]) by {
        assert(fp[i] == (fp + zeros(r))[i]);
        assert(fpr[i] == full[l - k + i]);
    }
}

/// How the text made of `ip` and `fp` reads: its value, with the trailing
/// zeros of its digits as a power of ten.
proof fn lemma_value_of_parts(neg: bool, ip: Seq<char>, fp: Seq<char>)
    requires
        ip.len() >= 1,
        digit_text(ip),
        digit_text(fp),
    ensures
        ({
            let dd = ip + fp;
            let t = trailing_zeros(dd);
            let v = digits_val(dd.subrange(0, dd.len() - t));
            &&& number_value(sign_text(neg) + mag_shape(ip, fp)) == Some(
                (
                    neg,
                    v,
                    if v == 0 {
                        0
                    } else {
                        t - fp.len()
                    },
                ),
            )
            &&& digits_val(dd) == v * pow10(t)
            &&& (v == 0 || v % 10 != 0)
            &&& pow10(t) >= 1
        }),
{
    lemma_number_parts(neg, ip, fp);
    let dd = ip + fp;
    assert forall|i: int| 0 <= i < dd.len() implies is_digit(#[trigger] dd[i]) by {
        if i < ip.len() {
            assert(dd[i] == ip[i]);
        } else {
            assert(dd[i] == fp[i - ip.len()]);
        }
    }
    lemma_strip_value(dd);
    lemma_pow10_pos(trailing_zeros(dd));
}

proof fn lemma_number_round_trip_nonneg(d: Decimal)
    requires
        d.exponent >= 0,
        d.mantissa != 0,
    ensures
        number_value(number_text(d)) == Some(
            (
                d.negative,
                canonical(d.mantissa as nat, d.exponent as int).0,
                canonical(d.mantissa as nat, d.exponent as int).1,
            ),
        ),
{
    let m = d.mantissa as nat;
    let e = d.exponent as nat;
    lemma_dec_digit_text(m);
    let ip = dec_digits(m) + zeros(e);
    let fp = Seq::<char>::empty();
    assert(magnitude_text(m, e as int) == mag_shape(ip, fp));
    assert forall|i: int| 0 <= i < ip.len() implies is_digit(#[trigger] ip[i]) by {
        if i >= dec_digits(m).len() {
            assert(ip[i] == '0');
        }
    }
    assert(ip + fp =~= ip);
    lemma_append_zeros(dec_digits(m), e);
    lemma_value_of_parts(d.negative, ip, fp);
    let t = trailing_zeros(ip + fp);
    let v = digits_val((ip + fp).subrange(0, (ip + fp).len() - t));
    lemma_pow10_pos(e);
    if m == 0 {
        assert(v * pow10(t) == 0);
        assert(v == 0) by (nonlinear_arith)
            requires
                v * pow10(t) == 0,
                pow10(t) >= 1;
    } else {
        assert(m * pow10(e) != 0) by (nonlinear_arith)
            requires
                m != 0,
                pow10(e) >= 1;
        assert(v != 0);
        lemma_canonical_shift(m, e as int, e);
        lemma_canonical_of(v, t, 0);
    }
}

proof fn lemma_number_round_trip_neg(d: Decimal)
    requires
        d.exponent < 0,
        d.mantissa != 0,
    ensures
        number_value(number_text(d)) == Some(
            (
                d.negative,
                canonical(d.mantissa as nat, d.exponent as int).0,
                canonical(d.mantissa as nat, d.exponent as int).1,
            ),
        ),
{
    let m = d.mantissa as nat;
    let e = d.exponent as int;
    let k = (-e) as nat;
    lemma_mag_negative(m, k);
    let full = digits_at_least(m, k);
    let l = full.len();
    let ip = full.subrange(0, l - k);
    let fp = strip_zeros(full.subrange(l - k, l as int));
    lemma_value_of_parts(d.negative, ip, fp);
    let t = trailing_zeros(ip + fp);
    let v = digits_val((ip + fp).subrange(0, (ip + fp).len() - t));
    let r = (k - fp.len()) as nat;
    lemma_pow10_add(t, r);
    assert(m == v * pow10(t) * pow10(r));
    assert(v * pow10(t) * pow10(r) == v * pow10(t + r)) by (nonlinear_arith)
        requires
            pow10(t + r) == pow10(t) * pow10(r);
    lemma_canonical_of(v, t + r, e);
}

/// The text of a number reads back as the number with the trailing zeros of
/// its mantissa moved into its exponent, where that exponent fits.
pub proof fn lemma_number_round_trip(d: Decimal)
    requires
        i32::MIN <= canonical(d.mantissa as nat, d.exponent as int).1 <= i32::MAX,
    ensures
        decimal_of(number_text(d)) == Some(
            Decimal {
                negative: d.negative,
                mantissa: canonical(d.mantissa as nat, d.exponent as int).0 as u64,
                exponent: canonical(d.mantissa as nat, d.exponent as int).1 as i32,
            },
        ),
{
    lemma_canonical_le(d.mantissa as nat, d.exponent as int);
    if d.mantissa == 0 {
        let ip = seq!['0'];
        assert(digit_text(ip));
        assert(number_text(d) == sign_text(d.negative) + mag_shape(ip, Seq::empty()));
        lemma_value_of_parts(d.negative, ip, Seq::empty());
        assert(ip + Seq::<char>::empty() =~= ip);
        assert(trailing_zeros(ip) == 1) by {
            assert(ip.drop_last() =~= Seq::<char>::empty());
            assert(ip.last() == '0');
            assert(trailing_zeros(Seq::<char>::empty()) == 0);
        }
        assert(ip.subrange(0, 0) =~= Seq::<char>::empty());
    } else if d.exponent >= 0 {
        lemma_number_round_trip_nonneg(d);
    } else {
        lemma_number_round_trip_neg(d);
    }
}


/// A number's text is a minus sign or none, then digits with at most one
/// point among them, ending in a digit.
proof fn lemma_number_text_shape(d: Decimal)
    ensures
        exists|ip: Seq<char>, fp: Seq<char>|
            ip.len() >= 1 && digit_text(ip) && digit_text(fp) && number_text(d) == sign_text(
                d.negative,
            ) + mag_shape(ip, fp),
{
    let m = d.mantissa as nat;
    let e = d.exponent as int;
    if m == 0 {
        let ip = seq!['0'];
        assert(digit_text(ip));
        assert(number_text(d) == sign_text(d.negative) + mag_shape(ip, Seq::empty()));
    } else if e >= 0 {
        lemma_dec_digit_text(m);
        let ip = dec_digits(m) + zeros(e as nat);
        let fp = Seq::<char>::empty();
        assert forall|i: int| 0 <= i < ip.len() implies is_digit(#[trigger] ip[i]) by {
            if i >= dec_digits(m).len() {
                assert(ip[i] == '0');
            }
        }
        assert(number_text(d) == sign_text(d.negative) + mag_shape(ip, fp));
    } else {
        let k = (-e) as nat;
        lemma_mag_negative(m, k);
        let full = digits_at_least(m, k);
        let l = full.len();
        let ip = full.subrange(0, l - k);
        let fp = strip_zeros(full.subrange(l - k, l as int));
        assert(number_text(d) == sign_text(d.negative) + mag_shape(ip, fp));
    }
}

/// A number's text is ASCII, on one line, holds no `<` and ends in a digit.
pub(crate) proof fn lemma_number_text_plain(d: Decimal)
    ensures
        forall|i: int|
            0 <= i < number_text(d).len() ==> (#[trigger] number_text(d)[i] == '-' || is_digit(
                number_text(d)[i],
            ) || number_text(d)[i] == '.'),
        number_text(d).len() >= 1,
        is_digit(number_text(d).last()),
{
    lemma_number_text_shape(d);
    let (ip, fp) = choose|ip: Seq<char>, fp: Seq<char>|
        ip.len() >= 1 && digit_text(ip) && digit_text(fp) && number_text(d) == sign_text(
            d.negative,
        ) + mag_shape(ip, fp);
    let sg = sign_text(d.negative);
    let mag = mag_shape(ip, fp);
    let t = number_text(d);
    assert forall|i: int| 0 <= i < t.len() implies (#[trigger] t[i] == '-' || is_digit(t[i])
        || t[i] == '.') by {
        if i < sg.len() {
            assert(t[i] == sg[i]);
        } else {
            let j = i - sg.len();
            assert(t[i] == mag[j]);
            if fp.len() == 0 {
                assert(mag[j] == ip[j]);
            } else if j < ip.len() {
                assert(mag[j] == ip[j]);
            } else if j > ip.len() {
                assert(mag[j] == fp[j - ip.len() - 1]);
            }
        }
    }
    if fp.len() == 0 {
        assert(t.last() == ip.last());
        assert(is_digit(ip[ip.len() - 1]));
    } else {
        assert(t.last() == fp.last());
        assert(is_digit(fp[fp.len() - 1]));
    }
}

} // verus!
