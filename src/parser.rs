//! The decoder: from a document's text to a header and its records.
use vstd::prelude::*;
use chrono::{Datelike, NaiveDate, NaiveTime, Timelike};
use indexmap::IndexMap;
use crate::container::{AdifFile, AdifHeader, AdifRecord, entries_insert, insert_entry, map_entries,
    map_new, record_views, unique_keys};
use crate::number::decimal_of;
use crate::text::{ascii_upper_text, chars_of, is_digit, push_range, upper_char};
use crate::token::{Token, TokenView, digits_val, parse_line_to_tokens, token_views, tokens_of};
use crate::value::{AdifType, Date, Decimal, Time, Value, valid_date, valid_time, days_in_month};

verus! {

/// Why a value's text cannot be read.
#[derive(Clone, Copy, Debug, PartialEq, Eq, Structural)]
pub enum ParseErrorKind {
    MalformedNumber,
    MalformedDate,
    MalformedTime,
}

/// A value's text that cannot be read, with the key of its field.
#[derive(Debug, Clone)]
pub struct ParseError {
    pub kind: ParseErrorKind,
    pub key: String,
    pub value: String,
}

pub type ParseErrorView = (ParseErrorKind, Seq<char>, Seq<char>);

impl View for ParseError {
    type V = ParseErrorView;

    open spec fn view(&self) -> ParseErrorView {
        (self.kind, self.key@, self.value@)
    }
}

pub open spec fn all_digits(s: Seq<char>) -> bool {
    forall|i: int| 0 <= i < s.len() ==> is_digit(#[trigger] s[i])
}

/// What chrono's `NaiveDate::parse_from_str(s, "%Y%m%d")` gives, as year, month and day.
pub uninterp spec fn chrono_ymd(s: Seq<char>) -> Option<(int, int, int)>;

/// What chrono's `NaiveTime::parse_from_str(s, "%H%M%S")` gives, as hour, minute and second.
pub uninterp spec fn chrono_hms(s: Seq<char>) -> Option<(int, int, int)>;

/// The fields of an eight-digit text read as `YYYYMMDD`.
pub open spec fn ymd_of(s: Seq<char>) -> (int, int, int) {
    (
        digits_val(s.subrange(0, 4)) as int,
        digits_val(s.subrange(4, 6)) as int,
        digits_val(s.subrange(6, 8)) as int,
    )
}

/// The fields of a six-digit text read as `HHMMSS`.
pub open spec fn hms_of(s: Seq<char>) -> (int, int, int) {
    (
        digits_val(s.subrange(0, 2)) as int,
        digits_val(s.subrange(2, 4)) as int,
        digits_val(s.subrange(4, 6)) as int,
    )
}

/// The date in a text: eight digits are read as `YYYYMMDD` and give a date
/// where there is one; any other text gives what chrono reads in it.
pub open spec fn date_parse(s: Seq<char>) -> Option<(int, int, int)> {
    if s.len() == 8 && all_digits(s) {
        let (y, m, d) = ymd_of(s);
        if valid_date(y, m, d) {
            Some((y, m, d))
        } else {
            None
        }
    } else {
        chrono_ymd(s)
    }
}

/// The time in a text: six digits that name a time are read as `HHMMSS`;
/// any other text gives what chrono reads in it.
pub open spec fn time_parse(s: Seq<char>) -> Option<(int, int, int)> {
    if s.len() == 6 && all_digits(s) && valid_time(hms_of(s).0, hms_of(s).1, hms_of(s).2) {
        Some(hms_of(s))
    } else {
        chrono_hms(s)
    }
}

/// Three numbers as integers.
pub open spec fn triple_view<A: Integer, B: Integer, C: Integer>(r: Option<(A, B, C)>) -> Option<(int, int, int)> {
    match r {
        Some((a, b, c)) => Some((a as int, b as int, c as int)),
        None => None,
    }
}

/// Relies on chrono's `NaiveDate::parse_from_str` with `"%Y%m%d"`: on eight
/// ASCII digits it reads the first four as the year, then two for the month
/// and two for the day, and gives that date where it exists; a date it gives
/// always has a month in 1..=12 and a day within the month.
#[verifier::external_body]
fn parse_ymd(s: &str) -> (r: Option<(i32, u32, u32)>)
    ensures
        s@.len() == 8 && all_digits(s@) ==> triple_view(r) == date_parse(s@),
        !(s@.len() == 8 && all_digits(s@)) ==> triple_view(r) == chrono_ymd(s@),
        r matches Some((y, m, d)) ==> 1 <= m <= 12 && 1 <= d <= days_in_month(y as int, m as int),
{
    match NaiveDate::parse_from_str(s, "%Y%m%d") {
        Ok(d) => Some((d.year(), d.month(), d.day())),
        Err(_) => None,
    }
}

/// Relies on chrono's `NaiveTime::parse_from_str` with `"%H%M%S"`: on six
/// ASCII digits that name a time it gives that time; the hour, minute and
/// second of any time it gives are below 24, 60 and 60.
#[verifier::external_body]
fn parse_hms(s: &str) -> (r: Option<(u32, u32, u32)>)
    ensures
        s@.len() == 6 && all_digits(s@) && valid_time(hms_of(s@).0, hms_of(s@).1, hms_of(s@).2)
            ==> triple_view(r) == Some(hms_of(s@)),
        !(s@.len() == 6 && all_digits(s@) && valid_time(hms_of(s@).0, hms_of(s@).1, hms_of(s@).2))
            ==> triple_view(r) == chrono_hms(s@),
        r matches Some((h, m, sec)) ==> valid_time(h as int, m as int, sec as int),
{
    match NaiveTime::parse_from_str(s, "%H%M%S") {
        Ok(t) => Some((t.hour(), t.minute(), t.second())),
        Err(_) => None,
    }
}

/// The value that a type letter and a text stand for.
pub open spec fn decode_value(ty: Option<char>, v: Seq<char>) -> Result<Value, ParseErrorKind> {
    match ty {
        Some(c) => if c == 'B' {
            Ok(Value::Boolean(v == seq!['Y'] || v == seq!['y']))
        } else if c == 'N' {
            match decimal_of(v) {
                Some(d) => Ok(Value::Number(d)),
                None => Err(ParseErrorKind::MalformedNumber),
            }
        } else if c == 'D' {
            match date_parse(v) {
                Some((y, m, d)) => Ok(
                    Value::Date(Date { year: y as i32, month: m as u32, day: d as u32 }),
                ),
                None => Err(ParseErrorKind::MalformedDate),
            }
        } else if c == 'T' {
            match time_parse(v) {
                Some((h, m, s)) => Ok(
                    Value::Time(Time { hour: h as u32, minute: m as u32, second: s as u32 }),
                ),
                None => Err(ParseErrorKind::MalformedTime),
            }
        } else {
            Ok(Value::Str(v))
        },
        None => Ok(Value::Str(v)),
    }
}

/// The value of a token.
pub fn decode_token(t: &Token) -> (r: Result<AdifType, ParseError>)
    ensures
        match r {
            Ok(v) => decode_value(t.ty, t.value@) == Ok::<Value, ParseErrorKind>(v@),
            Err(x) => decode_value(t.ty, t.value@) == Err::<Value, ParseErrorKind>(x.kind)
                && x.key@ == t.key@ && x.value@ == t.value@,
        },
{
    let s = t.value.as_str();
    match t.ty {
        Some(c) => {
            if c == 'B' {
                let y = chars_of(s);
                let b = y.len() == 1 && (y[0] == 'Y' || y[0] == 'y');
                assert(b == (s@ == seq!['Y'] || s@ == seq!['y'])) by {
                    if s@ == seq!['Y'] || s@ == seq!['y'] {
                        assert(y@[0] == s@[0]);
                    }
                    if b {
                        assert(s@ =~= seq![y@[0]]);
                    }
                }
                Ok(AdifType::Boolean(b))
            } else if c == 'N' {
                match Decimal::from_text(s) {
                    Some(d) => Ok(AdifType::Number(d)),
                    None => Err(ParseError { kind: ParseErrorKind::MalformedNumber, key: t.key.clone(), value: t.value.clone() }),
                }
            } else if c == 'D' {
                match parse_ymd(s) {
                    Some((y, m, d)) => Ok(AdifType::Date(Date { year: y, month: m, day: d })),
                    None => Err(ParseError { kind: ParseErrorKind::MalformedDate, key: t.key.clone(), value: t.value.clone() }),
                }
            } else if c == 'T' {
                match parse_hms(s) {
                    Some((h, m, sec)) => Ok(AdifType::Time(Time { hour: h, minute: m, second: sec })),
                    None => Err(ParseError { kind: ParseErrorKind::MalformedTime, key: t.key.clone(), value: t.value.clone() }),
                }
            } else {
                Ok(AdifType::Str(t.value.clone()))
            }
        },
        None => Ok(AdifType::Str(t.value.clone())),
    }
}


/// The fields that tokens make, in order: each token's value is decoded and
/// set under its key; the first token that cannot be decoded gives the error.
pub open spec fn fields_of(ts: Seq<TokenView>) -> Result<Seq<(Seq<char>, Value)>, ParseErrorView>
    decreases ts.len(),
{
    if ts.len() == 0 {
        Ok(Seq::empty())
    } else {
        match fields_of(ts.drop_last()) {
            Err(x) => Err(x),
            Ok(e) => {
                let t = ts.last();
                match decode_value(t.ty, t.value) {
                    Err(k) => Err((k, t.key, t.value)),
                    Ok(v) => Ok(entries_insert(e, t.key, v)),
                }
            },
        }
    }
}

proof fn lemma_fields_err_extends(ts: Seq<TokenView>, i: int, x: ParseErrorView)
    requires
        0 <= i <= ts.len(),
        fields_of(ts.take(i)) == Err::<Seq<(Seq<char>, Value)>, ParseErrorView>(x),
    ensures
        fields_of(ts) == Err::<Seq<(Seq<char>, Value)>, ParseErrorView>(x),
    decreases ts.len() - i,
{
    if i < ts.len() {
        assert(ts.take(i + 1).drop_last() =~= ts.take(i));
        lemma_fields_err_extends(ts, i + 1, x);
    } else {
        assert(ts.take(i) =~= ts);
    }
}

/// The fields that the tokens make, in an index map.
pub fn create_token_map(tokens: Vec<Token>) -> (r: Result<IndexMap<String, AdifType>, ParseError>)
    ensures
        match r {
            Ok(m) => fields_of(token_views(tokens@)) == Ok::<
                Seq<(Seq<char>, Value)>,
                ParseErrorView,
            >(map_entries(m)) && unique_keys(map_entries(m)),
            Err(x) => fields_of(token_views(tokens@)) == Err::<
                Seq<(Seq<char>, Value)>,
                ParseErrorView,
            >(x@),
        },
{
    let ghost ts = token_views(tokens@);
    let mut m = map_new();
    let mut i: usize = 0;
    while i < tokens.len()
        invariant
            ts == token_views(tokens@),
            i <= tokens@.len(),
            fields_of(ts.take(i as int)) == Ok::<Seq<(Seq<char>, Value)>, ParseErrorView>(
                map_entries(m),
            ),
            unique_keys(map_entries(m)),
        decreases tokens.len() - i,
    {
        let t = &tokens[i];
        assert(ts.take(i + 1).drop_last() =~= ts.take(i as int));
        assert(ts.take(i + 1).last() == t@);
        match decode_token(t) {
            Err(x) => {
                proof {
                    lemma_fields_err_extends(ts, i + 1, x@);
                }
                return Err(x);
            },
            Ok(v) => {
                insert_entry(&mut m, t.key.clone(), v);
            },
        }
        i = i + 1;
    }
    assert(ts.take(i as int) =~= ts);
    Ok(m)
}

/// The record that the tokens make.
pub fn parse_tokens_to_record(tokens: Vec<Token>) -> (r: Result<AdifRecord, ParseError>)
    ensures
        match r {
            Ok(rec) => fields_of(token_views(tokens@)) == Ok::<
                Seq<(Seq<char>, Value)>,
                ParseErrorView,
            >(rec@) && rec.wf(),
            Err(x) => fields_of(token_views(tokens@)) == Err::<
                Seq<(Seq<char>, Value)>,
                ParseErrorView,
            >(x@),
        },
{
    match create_token_map(tokens) {
        Ok(m) => Ok(AdifRecord::from_map(m)),
        Err(x) => Err(x),
    }
}

/// The header that the tokens make.
pub fn parse_tokens_to_header(tokens: Vec<Token>) -> (r: Result<AdifHeader, ParseError>)
    ensures
        match r {
            Ok(h) => fields_of(token_views(tokens@)) == Ok::<
                Seq<(Seq<char>, Value)>,
                ParseErrorView,
            >(h@) && h.wf(),
            Err(x) => fields_of(token_views(tokens@)) == Err::<
                Seq<(Seq<char>, Value)>,
                ParseErrorView,
            >(x@),
        },
{
    match create_token_map(tokens) {
        Ok(m) => Ok(AdifHeader::from_map(m)),
        Err(x) => Err(x),
    }
}

/// `<EOH>`, the end of the header.
pub open spec fn eoh() -> Seq<char> {
    seq!['<', 'E', 'O', 'H', '>']
}

/// `<EOR>`, the end of a record.
pub open spec fn eor() -> Seq<char> {
    seq!['<', 'E', 'O', 'R', '>']
}

/// Whether the terminator `t` (upper case) starts at `i` in any case.
pub open spec fn term_at(s: Seq<char>, i: int, t: Seq<char>) -> bool {
    0 <= i && i + 5 <= s.len() && ascii_upper_text(s.subrange(i, i + 5)) == t
}

/// The first place at or after `i` where `t` starts.
pub open spec fn first_term(s: Seq<char>, t: Seq<char>, i: int) -> Option<int>
    decreases s.len() - i,
{
    if i < 0 || i >= s.len() {
        None
    } else if term_at(s, i, t) {
        Some(i)
    } else {
        first_term(s, t, i + 1)
    }
}

/// The pieces of `s[start..]` between the places where `t` starts, scanning
/// from `i`.
pub open spec fn split_from(s: Seq<char>, t: Seq<char>, start: int, i: int) -> Seq<Seq<char>>
    decreases s.len() - i,
{
    if i >= s.len() || i < 0 {
        seq![s.subrange(start, s.len() as int)]
    } else if term_at(s, i, t) {
        seq![s.subrange(start, i)] + split_from(s, t, i + 5, i + 5)
    } else {
        split_from(s, t, start, i + 1)
    }
}

pub open spec fn split_terms(s: Seq<char>, t: Seq<char>) -> Seq<Seq<char>> {
    split_from(s, t, 0, 0)
}

/// The text before the first `<EOH>`, or the whole text where there is none.
pub open spec fn header_raw(s: Seq<char>) -> Seq<char> {
    match first_term(s, eoh(), 0) {
        Some(h) => s.subrange(0, h),
        None => s,
    }
}

/// The text after the first `<EOH>`, or the whole text where there is none.
pub open spec fn body_raw(s: Seq<char>) -> Seq<char> {
    match first_term(s, eoh(), 0) {
        Some(h) => s.subrange(h + 5, s.len() as int),
        None => s,
    }
}

/// The records that the pieces of a body make, or the first error.
pub open spec fn records_of(segs: Seq<Seq<char>>) -> Result<
    Seq<Seq<(Seq<char>, Value)>>,
    ParseErrorView,
>
    decreases segs.len(),
{
    if segs.len() == 0 {
        Ok(Seq::empty())
    } else {
        match records_of(segs.drop_last()) {
            Err(x) => Err(x),
            Ok(rs) => match fields_of(tokens_of(segs.last())) {
                Err(x) => Err(x),
                Ok(r) => Ok(rs.push(r)),
            },
        }
    }
}

/// A document read as its header's fields and each record's fields.
pub open spec fn parse_result(s: Seq<char>) -> Result<
    (Seq<(Seq<char>, Value)>, Seq<Seq<(Seq<char>, Value)>>),
    ParseErrorView,
> {
    match fields_of(tokens_of(header_raw(s))) {
        Err(x) => Err(x),
        Ok(h) => match records_of(split_terms(body_raw(s), eor())) {
            Err(x) => Err(x),
            Ok(rs) => Ok((h, rs)),
        },
    }
}


/// Whether `<c1c2c3>` starts at `i` in any case.
fn term_at_exec(cs: &Vec<char>, i: usize, c1: char, c2: char, c3: char) -> (r: bool)
    requires
        i <= cs@.len(),
    ensures
        r == term_at(cs@, i as int, seq!['<', c1, c2, c3, '>']),
{
    if cs.len() - i < 5 {
        return false;
    }
    let r = upper_char(cs[i]) == '<' && upper_char(cs[i + 1]) == c1 && upper_char(cs[i + 2]) == c2
        && upper_char(cs[i + 3]) == c3 && upper_char(cs[i + 4]) == '>';
    let ghost u = ascii_upper_text(cs@.subrange(i as int, i + 5));
    assert(r == (u =~= seq!['<', c1, c2, c3, '>'])) by {
        if r {
            assert(u =~= seq!['<', c1, c2, c3, '>']);
        }
        if u =~= seq!['<', c1, c2, c3, '>'] {
            assert(u[0] == '<' && u[1] == c1 && u[2] == c2 && u[3] == c3 && u[4] == '>');
        }
    }
    r
}

/// The characters `cs[from..to]` as a string.
fn text_of(cs: &Vec<char>, from: usize, to: usize) -> (r: String)
    requires
        from <= to <= cs@.len(),
    ensures
        r@ == cs@.subrange(from as int, to as int),
{
    let mut out = String::new();
    push_range(&mut out, cs, from, to);
    out
}

/// The characters `cs[from..to]`.
fn chars_range(cs: &Vec<char>, from: usize, to: usize) -> (r: Vec<char>)
    requires
        from <= to <= cs@.len(),
    ensures
        r@ == cs@.subrange(from as int, to as int),
{
    let mut out: Vec<char> = Vec::new();
    let mut i = from;
    while i < to
        invariant
            from <= i <= to <= cs@.len(),
            out@ == cs@.subrange(from as int, i as int),
        decreases to - i,
    {
        out.push(cs[i]);
        i = i + 1;
        assert(out@ =~= cs@.subrange(from as int, i as int));
    }
    out
}

/// The first place at or after `from` where `<EOH>` starts, in any case.
fn find_eoh(cs: &Vec<char>) -> (r: Option<usize>)
    ensures
        match r {
            Some(h) => first_term(cs@, eoh(), 0) == Some(h as int) && h + 5 <= cs@.len(),
            None => first_term(cs@, eoh(), 0) is None,
        },
{
    let mut i: usize = 0;
    while i < cs.len()
        invariant
            i <= cs@.len(),
            first_term(cs@, eoh(), 0) == first_term(cs@, eoh(), i as int),
        decreases cs.len() - i,
    {
        if term_at_exec(cs, i, 'E', 'O', 'H') {
            return Some(i);
        }
        i = i + 1;
    }
    None
}

/// The record that a piece of a body makes.
fn parse_segment(cs: &Vec<char>, from: usize, to: usize) -> (r: Result<AdifRecord, ParseError>)
    requires
        from <= to <= cs@.len(),
    ensures
        match r {
            Ok(rec) => fields_of(tokens_of(cs@.subrange(from as int, to as int))) == Ok::<
                Seq<(Seq<char>, Value)>,
                ParseErrorView,
            >(rec@),
            Err(x) => fields_of(tokens_of(cs@.subrange(from as int, to as int))) == Err::<
                Seq<(Seq<char>, Value)>,
                ParseErrorView,
            >(x@),
        },
{
    let seg = text_of(cs, from, to);
    let tokens = parse_line_to_tokens(seg.as_str());
    parse_tokens_to_record(tokens)
}

proof fn lemma_records_err_extends(segs: Seq<Seq<char>>, i: int, x: ParseErrorView)
    requires
        0 <= i <= segs.len(),
        records_of(segs.take(i)) == Err::<Seq<Seq<(Seq<char>, Value)>>, ParseErrorView>(x),
    ensures
        records_of(segs) == Err::<Seq<Seq<(Seq<char>, Value)>>, ParseErrorView>(x),
    decreases segs.len() - i,
{
    if i < segs.len() {
        assert(segs.take(i + 1).drop_last() =~= segs.take(i));
        lemma_records_err_extends(segs, i + 1, x);
    } else {
        assert(segs.take(i) =~= segs);
    }
}

/// The records of a body: the pieces between the `<EOR>` terminators (in
/// any case), the piece after the last one included, even where it is empty.
fn parse_body(b: &Vec<char>) -> (r: Result<Vec<AdifRecord>, ParseError>)
    ensures
        match r {
            Ok(rs) => records_of(split_terms(b@, eor())) == Ok::<
                Seq<Seq<(Seq<char>, Value)>>,
                ParseErrorView,
            >(record_views(rs@)),
            Err(x) => records_of(split_terms(b@, eor())) == Err::<
                Seq<Seq<(Seq<char>, Value)>>,
                ParseErrorView,
            >(x@),
        },
{
    let ghost all = split_terms(b@, eor());
    let ghost mut done: Seq<Seq<char>> = Seq::empty();
    let mut out: Vec<AdifRecord> = Vec::new();
    let mut start: usize = 0;
    let mut i: usize = 0;
    assert(record_views(out@) =~= Seq::<Seq<(Seq<char>, Value)>>::empty());
    while i < b.len()
        invariant
            start <= i <= b@.len(),
            all == split_terms(b@, eor()),
            all == done + split_from(b@, eor(), start as int, i as int),
            records_of(done) == Ok::<Seq<Seq<(Seq<char>, Value)>>, ParseErrorView>(
                record_views(out@),
            ),
        decreases b.len() - i,
    {
        if term_at_exec(b, i, 'E', 'O', 'R') {
            let ghost seg = b@.subrange(start as int, i as int);
            assert(split_from(b@, eor(), start as int, i as int) == seq![seg] + split_from(
                b@,
                eor(),
                i + 5,
                i + 5,
            ));
            let rec = parse_segment(b, start, i);
            assert((done.push(seg)).drop_last() =~= done);
            match rec {
                Err(x) => {
                    proof {
                        assert(all =~= done.push(seg) + split_from(b@, eor(), i + 5, i + 5));
                        assert(all.take(done.len() as int + 1) =~= done.push(seg));
                        lemma_records_err_extends(all, done.len() as int + 1, x@);
                    }
                    return Err(x);
                },
                Ok(rec) => {
                    let ghost before = out@;
                    out.push(rec);
                    assert(record_views(out@) =~= record_views(before).push(rec@));
                    proof {
                        assert(all =~= done.push(seg) + split_from(b@, eor(), i + 5, i + 5));
                        done = done.push(seg);
                    }
                },
            }
            i = i + 5;
            start = i;
        } else {
            i = i + 1;
        }
    }
    let ghost seg = b@.subrange(start as int, b@.len() as int);
    assert(split_from(b@, eor(), start as int, i as int) == seq![seg]);
    let rec = parse_segment(b, start, b.len());
    assert((done.push(seg)).drop_last() =~= done);
    assert(all =~= done.push(seg));
    match rec {
        Err(x) => Err(x),
        Ok(rec) => {
            let ghost before = out@;
            out.push(rec);
            assert(record_views(out@) =~= record_views(before).push(rec@));
            Ok(out)
        },
    }
}

/// Reads a document: the fields before the first `<EOH>` (in any case) make
/// the header, and the text after it, cut at every `<EOR>` (in any case),
/// makes the records. Where there is no `<EOH>`, the whole text is read both
/// as the header and as the body.
pub fn parse_adif(data: &str) -> (r: Result<AdifFile, ParseError>)
    ensures
        match r {
            Ok(f) => parse_result(data@) == Ok::<
                (Seq<(Seq<char>, Value)>, Seq<Seq<(Seq<char>, Value)>>),
                ParseErrorView,
            >((f.header@, record_views(f.body@))),
            Err(x) => parse_result(data@) == Err::<
                (Seq<(Seq<char>, Value)>, Seq<Seq<(Seq<char>, Value)>>),
                ParseErrorView,
            >(x@),
        },
{
    let cs = chars_of(data);
    let (header_text, body) = match find_eoh(&cs) {
        Some(h) => (text_of(&cs, 0, h), chars_range(&cs, h + 5, cs.len())),
        None => (text_of(&cs, 0, cs.len()), chars_range(&cs, 0, cs.len())),
    };
    assert(cs@.subrange(0, cs@.len() as int) =~= cs@);
    assert(header_text@ == header_raw(data@));
    assert(body@ == body_raw(data@));
    let header = match parse_tokens_to_header(parse_line_to_tokens(header_text.as_str())) {
        Ok(h) => h,
        Err(x) => {
            return Err(x);
        },
    };
    match parse_body(&body) {
        Ok(rs) => Ok(AdifFile { header, body: rs }),
        Err(x) => Err(x),
    }
}

} // verus!
