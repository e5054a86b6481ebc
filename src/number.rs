//! Reading a number's text: a floating-point literal such as `-12`, `3.5`,
//! `.5`, `+2` or `1.5E-2`, read exactly as a decimal.
use vstd::prelude::*;
use crate::text::{chars_of, digit_of, is_digit};
use crate::token::{digit_end, digit_end_at, digits_val, lemma_digit_run};
use crate::value::Decimal;

verus! {

/// The largest exponent that a text is read with; any larger one is read as
/// this, which is far outside what a `Decimal` holds either way.
pub open spec fn exp_cap() -> nat {
    0x40_0000_0000_0000_0000
}

pub open spec fn capped(n: nat) -> nat {
    if n > exp_cap() {
        exp_cap()
    } else {
        n
    }
}

/// The sign, the digits before the point, the digits after it and the
/// exponent, where `s` is a floating-point literal: `+` or `-` or neither,
/// digits, then `.` and digits, with at least one digit in all, then
/// optionally `e` or `E`, a sign or none, and at least one digit.
pub open spec fn number_parts(s: Seq<char>) -> Option<(bool, Seq<char>, Seq<char>, int)> {
    let signed = s.len() > 0 && (s[0] == '-' || s[0] == '+');
    let neg = s.len() > 0 && s[0] == '-';
    let a: int = if signed {
        1
    } else {
        0
    };
    let i1 = digit_end(s, a);
    let fs = if i1 < s.len() && s[i1] == '.' {
        i1 + 1
    } else {
        i1
    };
    let i2 = digit_end(s, fs);
    if i1 == a && i2 == fs {
        None
    } else if i2 == s.len() {
        Some((neg, s.subrange(a, i1), s.subrange(fs, i2), 0))
    } else if s[i2] == 'e' || s[i2] == 'E' {
        let j = i2 + 1;
        let esigned = j < s.len() && (s[j] == '-' || s[j] == '+');
        let b = if esigned {
            j + 1
        } else {
            j
        };
        let i3 = digit_end(s, b);
        if i3 == s.len() && i3 > b {
            let x = capped(digits_val(s.subrange(b, i3)));
            Some((
                neg,
                s.subrange(a, i1),
                s.subrange(fs, i2),
                if esigned && s[j] == '-' {
                    -x
                } else {
                    x as int
                },
            ))
        } else {
            None
        }
    } else {
        None
    }
}

/// How many zeros `d` ends with.
pub open spec fn trailing_zeros(d: Seq<char>) -> nat
    decreases d.len(),
{
    if d.len() > 0 && d.last() == '0' {
        1 + trailing_zeros(d.drop_last())
    } else {
        0
    }
}

/// The exact value of a number's text as sign, mantissa and exponent, the
/// mantissa without trailing zeros (and the exponent 0 for a zero).
pub open spec fn number_value(s: Seq<char>) -> Option<(bool, nat, int)> {
    match number_parts(s) {
        Some((neg, ip, fp, x)) => {
            let d = ip + fp;
            let z = trailing_zeros(d);
            let m = digits_val(d.subrange(0, d.len() - z));
            Some((
                neg,
                m,
                if m == 0 {
                    0
                } else {
                    z - fp.len() + x
                },
            ))
        },
        None => None,
    }
}

/// The number that a text spells, where it is one and its mantissa and
/// exponent fit a `Decimal`.
pub open spec fn decimal_of(s: Seq<char>) -> Option<Decimal> {
    match number_value(s) {
        Some((neg, m, e)) => if m <= u64::MAX && i32::MIN <= e <= i32::MAX {
            Some(Decimal { negative: neg, mantissa: m as u64, exponent: e as i32 })
        } else {
            None
        },
        None => None,
    }
}

/// The number that the digits `d[0..n]` spell, if it fits in a `u64`.
fn checked_digits(d: &Vec<char>, n: usize) -> (r: Option<u64>)
    requires
        n <= d@.len(),
        forall|k: int| 0 <= k < n ==> is_digit(#[trigger] d@[k]),
    ensures
        match r {
            Some(v) => v == digits_val(d@.subrange(0, n as int)),
            None => digits_val(d@.subrange(0, n as int)) > u64::MAX,
        },
{
    let mut acc: u64 = 0;
    let mut j: usize = 0;
    while j < n
        invariant
            j <= n <= d@.len(),
            forall|k: int| 0 <= k < n ==> is_digit(#[trigger] d@[k]),
            acc == digits_val(d@.subrange(0, j as int)),
        decreases n - j,
    {
        let x = digit_of(d[j]) as u64;
        assert(d@.subrange(0, j + 1).drop_last() =~= d@.subrange(0, j as int));
        let ghost prev = digits_val(d@.subrange(0, j as int));
        assert(digits_val(d@.subrange(0, j + 1)) == prev * 10 + x);
        if acc > (u64::MAX - x) / 10 {
            assert(prev * 10 + x > u64::MAX) by (nonlinear_arith)
                requires prev > (u64::MAX - x) / 10, x < 10;
            proof {
                lemma_digits_grow(d@, j as int + 1, n as int);
            }
            return None;
        }
        assert(prev * 10 + x <= u64::MAX) by (nonlinear_arith)
            requires prev <= (u64::MAX - x) / 10, x < 10;
        acc = acc * 10 + x;
        j = j + 1;
    }
    Some(acc)
}

/// More digits never spell a smaller number.
proof fn lemma_digits_grow(d: Seq<char>, i: int, n: int)
    requires
        0 <= i <= n <= d.len(),
    ensures
        digits_val(d.subrange(0, i)) <= digits_val(d.subrange(0, n)),
    decreases n - i,
{
    if i < n {
        lemma_digits_grow(d, i + 1, n);
        assert(d.subrange(0, i + 1).drop_last() =~= d.subrange(0, i));
    }
}

/// The number that the digits `cs[a..b]` spell, or `exp_cap()` where it is larger.
fn capped_digits(cs: &Vec<char>, a: usize, b: usize) -> (r: u128)
    requires
        a <= b <= cs@.len(),
        forall|k: int| a <= k < b ==> is_digit(#[trigger] cs@[k]),
    ensures
        r == capped(digits_val(cs@.subrange(a as int, b as int))),
{
    let cap: u128 = 0x40_0000_0000_0000_0000;
    let mut acc: u128 = 0;
    let mut j = a;
    while j < b
        invariant
            a <= j <= b <= cs@.len(),
            cap == exp_cap(),
            forall|k: int| a <= k < b ==> is_digit(#[trigger] cs@[k]),
            acc == capped(digits_val(cs@.subrange(a as int, j as int))),
        decreases b - j,
    {
        let x = digit_of(cs[j]) as u128;
        let ghost prev = digits_val(cs@.subrange(a as int, j as int));
        assert(cs@.subrange(a as int, j + 1).drop_last() =~= cs@.subrange(a as int, j as int));
        assert(digits_val(cs@.subrange(a as int, j + 1)) == prev * 10 + x);
        if acc == cap {
            assert(prev >= cap);
            assert(prev * 10 + x >= cap) by (nonlinear_arith)
                requires prev >= cap;
        } else {
            assert(prev == acc);
            let next = acc * 10 + x;
            if next > cap {
                acc = cap;
            } else {
                acc = next;
            }
        }
        j = j + 1;
    }
    acc
}

/// Where the parts of a number's text lie: sign, the digits before the
/// point as `[a, i1)`, the digits after it as `[fs, fe)`, and the exponent.
fn number_bounds(cs: &Vec<char>) -> (r: Option<(bool, usize, usize, usize, usize, i128)>)
    ensures
        match r {
            Some((neg, a, i1, fs, fe, x)) => a <= i1 <= fs <= fe <= cs@.len() && number_parts(cs@)
                == Some(
                (
                    neg,
                    cs@.subrange(a as int, i1 as int),
                    cs@.subrange(fs as int, fe as int),
                    x as int,
                ),
            ) && (forall|k: int| a <= k < i1 ==> is_digit(#[trigger] cs@[k])) && (forall|k: int|
                fs <= k < fe ==> is_digit(#[trigger] cs@[k])) && -exp_cap() <= x <= exp_cap(),
            None => number_parts(cs@) is None,
        },
{
    let n = cs.len();
    let signed = n > 0 && (cs[0] == '-' || cs[0] == '+');
    let neg = n > 0 && cs[0] == '-';
    let a: usize = if signed {
        1
    } else {
        0
    };
    let i1 = digit_end_at(cs, a);
    proof {
        lemma_digit_run(cs@, a as int);
    }
    let fs = if i1 < n && cs[i1] == '.' {
        i1 + 1
    } else {
        i1
    };
    let i2 = digit_end_at(cs, fs);
    proof {
        lemma_digit_run(cs@, fs as int);
    }
    if i1 == a && i2 == fs {
        return None;
    }
    if i2 == n {
        return Some((neg, a, i1, fs, i2, 0));
    }
    if cs[i2] != 'e' && cs[i2] != 'E' {
        return None;
    }
    let j = i2 + 1;
    let esigned = j < n && (cs[j] == '-' || cs[j] == '+');
    let b = if esigned {
        j + 1
    } else {
        j
    };
    let i3 = digit_end_at(cs, b);
    proof {
        lemma_digit_run(cs@, b as int);
    }
    if i3 != n || i3 == b {
        return None;
    }
    let x = capped_digits(cs, b, i3) as i128;
    let x = if esigned && cs[j] == '-' {
        -x
    } else {
        x
    };
    Some((neg, a, i1, fs, i2, x))
}

/// `cs[a..i1]` followed by `cs[fs..fe]`.
fn join_digits(cs: &Vec<char>, a: usize, i1: usize, fs: usize, fe: usize) -> (d: Vec<char>)
    requires
        a <= i1 <= fs <= fe <= cs@.len(),
    ensures
        d@ == cs@.subrange(a as int, i1 as int) + cs@.subrange(fs as int, fe as int),
{
    let ghost ip = cs@.subrange(a as int, i1 as int);
    let mut d: Vec<char> = Vec::new();
    let mut k = a;
    while k < i1
        invariant
            a <= k <= i1 <= cs@.len(),
            d@ == cs@.subrange(a as int, k as int),
        decreases i1 - k,
    {
        d.push(cs[k]);
        k = k + 1;
        assert(d@ =~= cs@.subrange(a as int, k as int));
    }
    let mut k = fs;
    assert(d@ =~= ip + cs@.subrange(fs as int, fs as int));
    while k < fe
        invariant
            fs <= k <= fe <= cs@.len(),
            d@ == ip + cs@.subrange(fs as int, k as int),
        decreases fe - k,
    {
        d.push(cs[k]);
        k = k + 1;
        assert(d@ =~= ip + cs@.subrange(fs as int, k as int));
    }
    d
}

fn count_trailing_zeros(d: &Vec<char>) -> (z: usize)
    ensures
        z == trailing_zeros(d@),
        z <= d@.len(),
{
    let mut z: usize = 0;
    assert(d@.subrange(0, d@.len() as int) =~= d@);
    while z < d.len() && d[d.len() - 1 - z] == '0'
        invariant
            z <= d@.len(),
            trailing_zeros(d@) == z + trailing_zeros(d@.subrange(0, d@.len() - z)),
        decreases d.len() - z,
    {
        assert(d@.subrange(0, d@.len() - z).drop_last() =~= d@.subrange(0, d@.len() - z - 1));
        z = z + 1;
    }
    z
}

impl Decimal {
    /// The exact number that the floating-point literal `s` spells (see
    /// `number_parts`); `None` where `s` is no such literal, or where its
    /// mantissa, once its trailing zeros are moved into the exponent, does
    /// not fit a `u64`, or its exponent does not fit an `i32`. The names
    /// `inf` and `NaN` are no literal here: a `Decimal` holds finite values.
    pub fn from_text(s: &str) -> (r: Option<Decimal>)
        ensures
            r == decimal_of(s@),
    {
        let cs = chars_of(s);
        let (neg, a, i1, fs, fe, x) = match number_bounds(&cs) {
            Some(b) => b,
            None => {
                return None;
            },
        };
        let d = join_digits(&cs, a, i1, fs, fe);
        let ghost fp = cs@.subrange(fs as int, fe as int);
        assert(forall|k: int| 0 <= k < d@.len() ==> is_digit(#[trigger] d@[k])) by {
            assert forall|k: int| 0 <= k < d@.len() implies is_digit(#[trigger] d@[k]) by {
                if k < i1 - a {
                    assert(d@[k] == cs@[a + k]);
                } else {
                    assert(d@[k] == cs@[fs + k - (i1 - a)]);
                }
            }
        }
        let z = count_trailing_zeros(&d);
        let flen = fe - fs;
        let ghost mv = digits_val(d@.subrange(0, d@.len() - z));
        assert(number_value(s@) == Some(
            (
                neg,
                mv,
                if mv == 0 {
                    0
                } else {
                    z - fp.len() + x
                },
            ),
        ));
        let m = match checked_digits(&d, d.len() - z) {
            Some(m) => m,
            None => {
                return None;
            },
        };
        let e: i128 = if m == 0 {
            0
        } else {
            z as i128 - flen as i128 + x
        };
        if e < -0x8000_0000 || e > 0x7fff_ffff {
            return None;
        }
        Some(Decimal { negative: neg, mantissa: m, exponent: e as i32 })
    }
}

} // verus!
