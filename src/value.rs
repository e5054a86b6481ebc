//! The typed field values and how each one is written as a tag.
use vstd::prelude::*;
use vstd::string::StrSliceExecFns;
use crate::text::{
    chars_of, dec_digits, is_ascii_text, padded, push_char, push_decimal,
    push_padded, push_range, push_str, push_zeros, to_upper, upper_text, zeros,
};

verus! {

/// An exact decimal number: `mantissa * 10^exponent`, negative when `negative`
/// (a negative zero keeps its sign).
#[derive(Clone, Copy, Debug, PartialEq, Eq, Structural)]
pub struct Decimal {
    pub negative: bool,
    pub mantissa: u64,
    pub exponent: i32,
}

/// A calendar date.
#[derive(Clone, Copy, Debug, PartialEq, Eq, Structural)]
pub struct Date {
    pub year: i32,
    pub month: u32,
    pub day: u32,
}

/// A time of day, to the second.
#[derive(Clone, Copy, Debug, PartialEq, Eq, Structural)]
pub struct Time {
    pub hour: u32,
    pub minute: u32,
    pub second: u32,
}

pub open spec fn is_leap_year(y: int) -> bool {
    (y % 4 == 0 && y % 100 != 0) || y % 400 == 0
}

pub open spec fn days_in_month(y: int, m: int) -> int {
    if m == 2 {
        if is_leap_year(y) {
            29
        } else {
            28
        }
    } else if m == 4 || m == 6 || m == 9 || m == 11 {
        30
    } else {
        31
    }
}

/// A date of the Gregorian calendar with a four-digit year.
pub open spec fn valid_date(y: int, m: int, d: int) -> bool {
    0 <= y <= 9999 && 1 <= m <= 12 && 1 <= d <= days_in_month(y, m)
}

pub open spec fn valid_time(h: int, m: int, s: int) -> bool {
    0 <= h < 24 && 0 <= m < 60 && 0 <= s < 60
}

/// The number of days in month `m` (1 to 12) of a year `y` that is not negative.
pub fn month_days(y: i32, m: u32) -> (r: u32)
    requires
        1 <= m <= 12,
        y >= 0,
    ensures
        r == days_in_month(y as int, m as int),
{
    let leap = (y % 4 == 0 && y % 100 != 0) || y % 400 == 0;
    if m == 2 {
        if leap {
            29
        } else {
            28
        }
    } else if m == 4 || m == 6 || m == 9 || m == 11 {
        30
    } else {
        31
    }
}

impl Date {
    pub open spec fn wf(&self) -> bool {
        valid_date(self.year as int, self.month as int, self.day as int)
    }

    /// The date with the given year, month and day, if there is one.
    pub fn from_ymd_opt(year: i32, month: u32, day: u32) -> (r: Option<Date>)
        ensures
            r matches Some(d) ==> d == (Date { year, month, day }),
            r is Some <==> valid_date(year as int, month as int, day as int),
    {
        if year < 0 || year > 9999 || month < 1 || month > 12 || day < 1 {
            return None;
        }
        if day > month_days(year, month) {
            None
        } else {
            Some(Date { year, month, day })
        }
    }
}

impl Time {
    pub open spec fn wf(&self) -> bool {
        valid_time(self.hour as int, self.minute as int, self.second as int)
    }

    /// The time with the given hour, minute and second, if there is one.
    pub fn from_hms_opt(hour: u32, minute: u32, second: u32) -> (r: Option<Time>)
        ensures
            r matches Some(t) ==> t == (Time { hour, minute, second }),
            r is Some <==> valid_time(hour as int, minute as int, second as int),
    {
        if hour < 24 && minute < 60 && second < 60 {
            Some(Time { hour, minute, second })
        } else {
            None
        }
    }
}

/// A field value.
#[derive(Debug, Clone, PartialEq)]
pub enum AdifType {
    Str(String),
    Boolean(bool),
    Number(Decimal),
    Date(Date),
    Time(Time),
}

/// What a field value is, with its text as a sequence of characters.
pub enum Value {
    Str(Seq<char>),
    Boolean(bool),
    Number(Decimal),
    Date(Date),
    Time(Time),
}

impl View for AdifType {
    type V = Value;

    open spec fn view(&self) -> Value {
        match self {
            AdifType::Str(s) => Value::Str(s@),
            AdifType::Boolean(b) => Value::Boolean(*b),
            AdifType::Number(n) => Value::Number(*n),
            AdifType::Date(d) => Value::Date(*d),
            AdifType::Time(t) => Value::Time(*t),
        }
    }
}

/// Why a value cannot be written.
#[derive(Clone, Copy, Debug, PartialEq, Eq, Structural)]
pub enum SerializeErrorKind {
    NonAsciiString,
    StringContainsLinebreak,
    DateTooEarly,
    InvalidDate,
    InvalidTime,
}

/// A value that cannot be written, with the key of its field and the value as text.
#[derive(Debug, Clone)]
pub struct SerializeError {
    pub kind: SerializeErrorKind,
    pub key: String,
    pub offender: String,
}

/// An error as the kind, the key and the offending value's text.
pub type ErrorView = (SerializeErrorKind, Seq<char>, Seq<char>);

impl View for SerializeError {
    type V = ErrorView;

    open spec fn view(&self) -> ErrorView {
        (self.kind, self.key@, self.offender@)
    }
}

/// The sentence for each kind of error.
pub open spec fn message_text(k: SerializeErrorKind) -> Seq<char> {
    match k {
        SerializeErrorKind::NonAsciiString => "String must be ASCII"@,
        SerializeErrorKind::StringContainsLinebreak => "String cannot contain linebreaks"@,
        SerializeErrorKind::DateTooEarly => "Date must be >= 1930"@,
        SerializeErrorKind::InvalidDate => "Date is not a calendar date"@,
        SerializeErrorKind::InvalidTime => "Time is not a time of day"@,
    }
}

impl SerializeError {
    /// A sentence that says what is wrong.
    pub fn message(&self) -> (r: String)
        ensures
            r@ == message_text(self.kind),
    {
        match self.kind {
            SerializeErrorKind::NonAsciiString => "String must be ASCII".to_owned(),
            SerializeErrorKind::StringContainsLinebreak => "String cannot contain linebreaks".to_owned(),
            SerializeErrorKind::DateTooEarly => "Date must be >= 1930".to_owned(),
            SerializeErrorKind::InvalidDate => "Date is not a calendar date".to_owned(),
            SerializeErrorKind::InvalidTime => "Time is not a time of day".to_owned(),
        }
    }
}

pub open spec fn is_linebreak(c: char) -> bool {
    c == '\n' || c == '\r'
}

pub open spec fn has_linebreak(s: Seq<char>) -> bool {
    exists|i: int| 0 <= i < s.len() && is_linebreak(s[i])
}

/// The key as it is written in a tag: upper case, with spaces turned into underscores.
pub open spec fn normalize_key(k: Seq<char>) -> Seq<char> {
    upper_text(k).map_values(|c: char| if c == ' ' { '_' } else { c })
}

pub open spec fn sign_text(negative: bool) -> Seq<char> {
    if negative {
        seq!['-']
    } else {
        Seq::empty()
    }
}

/// `s` without its trailing zeros.
pub open spec fn strip_zeros(s: Seq<char>) -> Seq<char>
    decreases s.len(),
{
    if s.len() > 0 && s.last() == '0' {
        strip_zeros(s.drop_last())
    } else {
        s
    }
}

/// The digits of `m` with enough leading zeros that at least `k + 1` remain.
pub open spec fn digits_at_least(m: nat, k: nat) -> Seq<char> {
    let d = dec_digits(m);
    if d.len() > k {
        d
    } else {
        zeros((k + 1 - d.len()) as nat) + d
    }
}

/// The shortest plain decimal text of `m * 10^e`: no exponent, no trailing
/// zero after the point, no point when nothing follows it, and `0` for zero.
pub open spec fn magnitude_text(m: nat, e: int) -> Seq<char> {
    if m == 0 {
        seq!['0']
    } else if e >= 0 {
        dec_digits(m) + zeros(e as nat)
    } else {
        let k = (-e) as nat;
        let full = digits_at_least(m, k);
        let ip = full.subrange(0, full.len() - k);
        let fp = strip_zeros(full.subrange(full.len() - k, full.len() as int));
        if fp.len() == 0 {
            ip
        } else {
            ip + seq!['.'] + fp
        }
    }
}

pub open spec fn number_text(n: Decimal) -> Seq<char> {
    sign_text(n.negative) + magnitude_text(n.mantissa as nat, n.exponent as int)
}

pub open spec fn date_text(d: Date) -> Seq<char> {
    padded(d.year as nat, 4) + padded(d.month as nat, 2) + padded(d.day as nat, 2)
}

/// A date as `YYYY-MM-DD`, with a sign before a negative year.
pub open spec fn date_display(d: Date) -> Seq<char> {
    let y = if d.year < 0 {
        seq!['-'] + padded((-d.year) as nat, 4)
    } else {
        padded(d.year as nat, 4)
    };
    y + seq!['-'] + padded(d.month as nat, 2) + seq!['-'] + padded(d.day as nat, 2)
}

/// A time as `HH:MM:SS`.
pub open spec fn time_display(t: Time) -> Seq<char> {
    padded(t.hour as nat, 2) + seq![':'] + padded(t.minute as nat, 2) + seq![':'] + padded(
        t.second as nat,
        2,
    )
}

pub open spec fn time_text(t: Time) -> Seq<char> {
    padded(t.hour as nat, 2) + padded(t.minute as nat, 2) + padded(t.second as nat, 2)
}

/// The text that stands for a value in its tag, or why there is none.
pub open spec fn value_text(v: Value) -> Result<Seq<char>, SerializeErrorKind> {
    match v {
        Value::Str(s) => if has_linebreak(s) {
            Err(SerializeErrorKind::StringContainsLinebreak)
        } else if !is_ascii_text(s) {
            Err(SerializeErrorKind::NonAsciiString)
        } else {
            Ok(s)
        },
        Value::Boolean(b) => Ok(if b { seq!['Y'] } else { seq!['N'] }),
        Value::Number(n) => Ok(number_text(n)),
        Value::Date(d) => if d.year < 1930 {
            Err(SerializeErrorKind::DateTooEarly)
        } else if !(1 <= d.month <= 12 && 1 <= d.day <= days_in_month(d.year as int, d.month as int)) {
            Err(SerializeErrorKind::InvalidDate)
        } else {
            Ok(date_text(d))
        },
        Value::Time(t) => if t.wf() {
            Ok(time_text(t))
        } else {
            Err(SerializeErrorKind::InvalidTime)
        },
    }
}

/// The value as it is shown when it cannot be written.
pub open spec fn offender_text(v: Value) -> Seq<char> {
    match v {
        Value::Str(s) => s,
        Value::Date(d) => date_display(d),
        Value::Time(t) => time_display(t),
        _ => Seq::empty(),
    }
}

pub open spec fn type_indicator(v: Value) -> Option<char> {
    match v {
        Value::Str(_) => None,
        Value::Boolean(_) => Some('B'),
        Value::Number(_) => Some('N'),
        Value::Date(_) => Some('D'),
        Value::Time(_) => Some('T'),
    }
}

pub open spec fn indicator_text(ty: Option<char>) -> Seq<char> {
    match ty {
        Some(c) => seq![':', c],
        None => Seq::empty(),
    }
}

/// `<KEY:LEN[:T]>TEXT` for a key as written and the value's text.
pub open spec fn tag_text(wire_key: Seq<char>, ty: Option<char>, text: Seq<char>) -> Seq<char> {
    seq!['<'] + wire_key + seq![':'] + dec_digits(text.len()) + indicator_text(ty) + seq!['>']
        + text
}


/// The tag of one field, or the error that stops it.
pub open spec fn tag_result(f: (Seq<char>, Value)) -> Result<Seq<char>, ErrorView> {
    match value_text(f.1) {
        Ok(text) => Ok(tag_text(normalize_key(f.0), type_indicator(f.1), text)),
        Err(k) => Err((k, f.0, offender_text(f.1))),
    }
}

/// Appends the text of `m * 10^-k`: its digits with a point before the last
/// `k`, without trailing zeros after the point.
fn push_fraction(out: &mut String, m: u64, k: u64)
    requires
        m != 0,
        1 <= k <= 0x8000_0000,
    ensures
        final(out)@ == old(out)@ + magnitude_text(m as nat, -(k as int)),
{
        let mut digs = String::new();
        push_decimal(&mut digs, m);
        let d = chars_of(digs.as_str());
        let full: Vec<char> = if d.len() as u64 > k {
            d
        } else {
            let mut z = String::new();
            push_zeros(&mut z, k + 1 - d.len() as u64);
            push_str(&mut z, digs.as_str());
            chars_of(z.as_str())
        };
        assert(full@ =~= digits_at_least(m as nat, k as nat));
        let ip_len = full.len() - k as usize;
        let mut fe = full.len();
        while fe > ip_len && full[fe - 1] == '0'
            invariant
                ip_len <= fe <= full@.len(),
                strip_zeros(full@.subrange(ip_len as int, full@.len() as int)) == strip_zeros(
                    full@.subrange(ip_len as int, fe as int),
                ),
            decreases fe,
        {
            assert(full@.subrange(ip_len as int, fe as int).drop_last() =~= full@.subrange(
                ip_len as int,
                fe - 1,
            ));
            fe = fe - 1;
        }
        assert(strip_zeros(full@.subrange(ip_len as int, fe as int)) == full@.subrange(
            ip_len as int,
            fe as int,
        ));
        push_range(out, &full, 0, ip_len);
        if fe > ip_len {
            push_char(out, '.');
            push_range(out, &full, ip_len, fe);
        }
        assert(out@ =~= old(out)@ + magnitude_text(m as nat, -(k as int)));
}

/// Appends the shortest plain decimal text of `n`.
pub fn push_number(out: &mut String, n: Decimal)
    ensures
        final(out)@ == old(out)@ + number_text(n),
{
    if n.negative {
        push_char(out, '-');
    }
    let ghost start = out@;
    let e = n.exponent as i64;
    if n.mantissa == 0 {
        push_char(out, '0');
    } else if e >= 0 {
        push_decimal(out, n.mantissa);
        push_zeros(out, e as u64);
    } else {
        push_fraction(out, n.mantissa, (-e) as u64);
    }
    assert(out@ =~= start + magnitude_text(n.mantissa as nat, n.exponent as int));
}

/// Appends `YYYYMMDD` for a date whose year is not negative.
pub fn push_date(out: &mut String, d: Date)
    requires
        d.year >= 0,
    ensures
        final(out)@ == old(out)@ + date_text(d),
{
    push_padded(out, d.year as u64, 4);
    push_padded(out, d.month as u64, 2);
    push_padded(out, d.day as u64, 2);
    assert(out@ =~= old(out)@ + date_text(d));
}

/// The date as `YYYY-MM-DD`.
pub fn date_to_text(d: Date) -> (r: String)
    ensures
        r@ == date_display(d),
{
    let mut out = String::new();
    if d.year < 0 {
        push_char(&mut out, '-');
        push_padded(&mut out, (-(d.year as i64)) as u64, 4);
    } else {
        push_padded(&mut out, d.year as u64, 4);
    }
    push_char(&mut out, '-');
    push_padded(&mut out, d.month as u64, 2);
    push_char(&mut out, '-');
    push_padded(&mut out, d.day as u64, 2);
    assert(out@ =~= date_display(d));
    out
}

/// Appends `HHMMSS`.
pub fn push_time(out: &mut String, t: Time)
    ensures
        final(out)@ == old(out)@ + time_text(t),
{
    push_padded(out, t.hour as u64, 2);
    push_padded(out, t.minute as u64, 2);
    push_padded(out, t.second as u64, 2);
    assert(out@ =~= old(out)@ + time_text(t));
}

/// Appends `HH:MM:SS`.
pub fn push_time_display(out: &mut String, t: Time)
    ensures
        final(out)@ == old(out)@ + time_display(t),
{
    push_padded(out, t.hour as u64, 2);
    push_char(out, ':');
    push_padded(out, t.minute as u64, 2);
    push_char(out, ':');
    push_padded(out, t.second as u64, 2);
    assert(out@ =~= old(out)@ + time_display(t));
}

/// Whether a text can stand as a string value, and if not, why.
pub fn check_text(s: &str) -> (r: Result<(), SerializeErrorKind>)
    ensures
        match r {
            Ok(()) => value_text(Value::Str(s@)) is Ok,
            Err(k) => value_text(Value::Str(s@)) == Err::<Seq<char>, SerializeErrorKind>(k),
        },
{
    let cs = chars_of(s);
    let mut i: usize = 0;
    while i < cs.len()
        invariant
            cs@ == s@,
            i <= cs@.len(),
            forall|j: int| 0 <= j < i ==> !is_linebreak(cs@[j]),
        decreases cs.len() - i,
    {
        if cs[i] == '\n' || cs[i] == '\r' {
            return Err(SerializeErrorKind::StringContainsLinebreak);
        }
        i = i + 1;
    }
    let mut i: usize = 0;
    while i < cs.len()
        invariant
            cs@ == s@,
            i <= cs@.len(),
            !has_linebreak(s@),
            forall|j: int| 0 <= j < i ==> (cs@[j] as u32) < 128,
        decreases cs.len() - i,
    {
        if cs[i] as u32 >= 128 {
            return Err(SerializeErrorKind::NonAsciiString);
        }
        i = i + 1;
    }
    Ok(())
}

/// The key as it is written in a tag.
pub fn wire_key(key: &str) -> (r: String)
    ensures
        r@ == normalize_key(key@),
{
    let up = to_upper(key);
    let cs = chars_of(up.as_str());
    let mut out = String::new();
    let mut i: usize = 0;
    while i < cs.len()
        invariant
            cs@ == upper_text(key@),
            i <= cs@.len(),
            out@ == cs@.subrange(0, i as int).map_values(
                |c: char|
                    if c == ' ' {
                        '_'
                    } else {
                        c
                    },
            ),
        decreases cs.len() - i,
    {
        let c = cs[i];
        push_char(&mut out, if c == ' ' { '_' } else { c });
        i = i + 1;
        assert(out@ =~= cs@.subrange(0, i as int).map_values(
            |c: char|
                if c == ' ' {
                    '_'
                } else {
                    c
                },
        ));
    }
    assert(cs@.subrange(0, cs@.len() as int) =~= cs@);
    out
}

impl AdifType {
    /// The letter that marks the value's type in a tag; none for a string.
    pub fn get_data_type_indicator(&self) -> (r: Option<char>)
        ensures
            r == type_indicator(self@),
    {
        match self {
            AdifType::Str(_) => None,
            AdifType::Boolean(_) => Some('B'),
            AdifType::Number(_) => Some('N'),
            AdifType::Date(_) => Some('D'),
            AdifType::Time(_) => Some('T'),
        }
    }

    /// The text that stands for the value in its tag.
    pub fn value_text(&self) -> (r: Result<String, SerializeErrorKind>)
        ensures
            match r {
                Ok(t) => value_text(self@) == Ok::<Seq<char>, SerializeErrorKind>(t@),
                Err(k) => value_text(self@) == Err::<Seq<char>, SerializeErrorKind>(k),
            },
    {
        let mut out = String::new();
        match self {
            AdifType::Str(s) => {
                match check_text(s.as_str()) {
                    Err(k) => {
                        return Err(k);
                    },
                    Ok(()) => {
                        push_str(&mut out, s.as_str());
                    },
                }
            },
            AdifType::Boolean(b) => {
                push_char(&mut out, if *b { 'Y' } else { 'N' });
            },
            AdifType::Number(n) => {
                push_number(&mut out, *n);
            },
            AdifType::Date(d) => {
                if d.year < 1930 {
                    return Err(SerializeErrorKind::DateTooEarly);
                }
                if d.month < 1 || d.month > 12 || d.day < 1 || d.day > month_days(d.year, d.month) {
                    return Err(SerializeErrorKind::InvalidDate);
                }
                push_date(&mut out, *d);
            },
            AdifType::Time(t) => {
                if t.hour >= 24 || t.minute >= 60 || t.second >= 60 {
                    return Err(SerializeErrorKind::InvalidTime);
                }
                push_time(&mut out, *t);
            },
        }
        assert(value_text(self@) == Ok::<Seq<char>, SerializeErrorKind>(out@));
        Ok(out)
    }

    /// The value as it is shown in an error.
    pub fn offender(&self) -> (r: String)
        ensures
            r@ == offender_text(self@),
    {
        match self {
            AdifType::Str(s) => s.clone(),
            AdifType::Date(d) => date_to_text(*d),
            AdifType::Time(t) => {
                let mut out = String::new();
                push_time_display(&mut out, *t);
                out
            },
            _ => String::new(),
        }
    }

    /// The whole tag for this value under `key_name`: `<KEY:LEN[:T]>TEXT`.
    pub fn serialize(&self, key_name: &str) -> (r: Result<String, SerializeError>)
        ensures
            match r {
                Ok(t) => tag_result((key_name@, self@)) == Ok::<Seq<char>, ErrorView>(t@),
                Err(e) => tag_result((key_name@, self@)) == Err::<Seq<char>, ErrorView>(e@),
            },
    {
        let text = match self.value_text() {
            Ok(t) => t,
            Err(kind) => {
                return Err(SerializeError { kind, key: key_name.to_owned(), offender: self.offender() });
            },
        };
        let mut out = String::new();
        push_char(&mut out, '<');
        let k = wire_key(key_name);
        push_str(&mut out, k.as_str());
        push_char(&mut out, ':');
        let len = text.as_str().unicode_len();
        push_decimal(&mut out, len as u64);
        match self.get_data_type_indicator() {
            Some(c) => {
                push_char(&mut out, ':');
                push_char(&mut out, c);
            },
            None => {},
        }
        push_char(&mut out, '>');
        push_str(&mut out, text.as_str());
        assert(out@ =~= tag_text(normalize_key(key_name@), type_indicator(self@), text@));
        Ok(out)
    }
}

} // verus!
