//! What holds across the encoder and the decoder.
use vstd::prelude::*;
use crate::text::{dec_digits, digit_char, digit_value, is_digit, padded, zeros};
use crate::text::{ascii_upper, ascii_upper_text, is_ascii_text, is_key_char, upper_text};
use crate::token::{TokenView, lemma_digit_end_is, lemma_key_end_is, saturate, digit_end, digits_val, is_ws, key_end, tag_head, token_at, tokens_from,
    trim_end, upper_opt, value_end};
use crate::value::{Value, has_linebreak, is_linebreak, indicator_text, normalize_key, tag_result, tag_text,
    type_indicator, value_text};
use crate::parser::{ParseErrorView, decode_value, eoh, eor, fields_of, first_term, parse_result,
    split_from, split_terms, records_of, header_raw, body_raw, term_at};
use crate::container::{entries_insert, key_position, unique_keys, tags_result, record_result,
    header_result, stamp_text};
use crate::value::{ErrorView, date_display, time_display, Date, Time};
use crate::numlaw::{canonical, lemma_number_round_trip, lemma_number_text_plain};

verus! {

pub open spec fn all_digit_chars(s: Seq<char>) -> bool {
    forall|i: int| 0 <= i < s.len() ==> is_digit(#[trigger] s[i])
}

proof fn lemma_digit_char(d: nat)
    requires
        d < 10,
    ensures
        is_digit(digit_char(d)),
        digit_value(digit_char(d)) == d,
{
}

/// The decimal digits of `n` are digits, at least one, and spell `n`.
pub(crate) proof fn lemma_dec_digits(n: nat)
    ensures
        all_digit_chars(dec_digits(n)),
        dec_digits(n).len() >= 1,
        digits_val(dec_digits(n)) == n,
        n < 10 ==> dec_digits(n).len() == 1,
        n < 100 ==> dec_digits(n).len() <= 2,
        n < 1000 ==> dec_digits(n).len() <= 3,
        n < 10000 ==> dec_digits(n).len() <= 4,
    decreases n,
{
    if n < 10 {
        lemma_digit_char(n);
        assert(dec_digits(n).drop_last() =~= Seq::<char>::empty());
        assert(digits_val(Seq::<char>::empty()) == 0);
        assert(digits_val(dec_digits(n)) == digits_val(dec_digits(n).drop_last()) * 10
            + digit_value(dec_digits(n).last()));
    } else {
        lemma_dec_digits(n / 10);
        lemma_digit_char(n % 10);
        assert(dec_digits(n).drop_last() =~= dec_digits(n / 10));
        assert((n / 10) * 10 + n % 10 == n) by (nonlinear_arith);
        assert(dec_digits(n).last() == digit_char(n % 10));
        assert(digits_val(dec_digits(n)) == digits_val(dec_digits(n).drop_last()) * 10
            + digit_value(dec_digits(n).last()));
        assert(n < 100 ==> n / 10 < 10);
        assert(n < 1000 ==> n / 10 < 100);
        assert(n < 10000 ==> n / 10 < 1000);
    }
}

/// Leading zeros do not change what digits spell.
pub(crate) proof fn lemma_leading_zeros(k: nat, d: Seq<char>)
    ensures
        digits_val(zeros(k) + d) == digits_val(d),
    decreases d.len(), k,
{
    if d.len() == 0 {
        assert(zeros(k) + d =~= zeros(k));
        if k > 0 {
            assert(zeros(k).drop_last() =~= zeros((k - 1) as nat));
            lemma_leading_zeros((k - 1) as nat, d);
            assert(zeros((k - 1) as nat) + d =~= zeros((k - 1) as nat));
        }
    } else {
        assert((zeros(k) + d).drop_last() =~= zeros(k) + d.drop_last());
        lemma_leading_zeros(k, d.drop_last());
    }
}

/// `n` padded to `w` digits is `w` digits long and spells `n`.
proof fn lemma_padded(n: nat, w: nat)
    requires
        dec_digits(n).len() <= w,
    ensures
        padded(n, w).len() == w,
        all_digit_chars(padded(n, w)),
        digits_val(padded(n, w)) == n,
{
    lemma_dec_digits(n);
    lemma_leading_zeros((w - dec_digits(n).len()) as nat, dec_digits(n));
}


proof fn lemma_value_run(s: Seq<char>, i: int, j: int)
    requires
        0 <= i <= j <= s.len(),
        forall|q: int| i <= q < j ==> #[trigger] s[q] != '<',
        j == s.len() || s[j] == '<',
    ensures
        value_end(s, i) == j,
    decreases j - i,
{
    if i < j {
        lemma_value_run(s, i + 1, j);
    }
}

proof fn lemma_trim_run(s: Seq<char>, a: int, c: int, b: int)
    requires
        0 <= a <= c <= b <= s.len(),
        forall|q: int| c <= q < b ==> is_ws(#[trigger] s[q]),
        c == a || !is_ws(s[c - 1]),
    ensures
        trim_end(s, a, b) == c,
    decreases b - c,
{
    if c < b {
        lemma_trim_run(s, a, c, b - 1);
    }
}

/// A key as it stands in a tag: upper-case ASCII letters and underscores.
pub open spec fn is_wire_key(k: Seq<char>) -> bool {
    k.len() > 0 && forall|i: int| 0 <= i < k.len() ==> ('A' <= #[trigger] k[i] && k[i] <= 'Z')
        || k[i] == '_'
}

/// A string value that comes back as it was: ASCII, on one line, without `<`
/// and without white space at its end.
pub open spec fn is_plain_text(s: Seq<char>) -> bool {
    &&& is_ascii_text(s)
    &&& !has_linebreak(s)
    &&& forall|i: int| 0 <= i < s.len() ==> #[trigger] s[i] != '<'
    &&& s.len() == 0 || !is_ws(s.last())
}

/// A field that comes back from its text as it was: a key as it stands in a
/// tag (see `is_wire_key`), and a plain string, a boolean, a number whose mantissa ends in no
/// zero (zero with the exponent 0), a date from 1930 on, or a time.
pub open spec fn wire_round_trips(f: (Seq<char>, Value)) -> bool {
    is_wire_key(f.0) && match f.1 {
        Value::Str(s) => is_plain_text(s),
        Value::Boolean(_) => true,
        Value::Number(n) => canonical(n.mantissa as nat, n.exponent as int) == (
            n.mantissa as nat,
            n.exponent as int,
        ),
        Value::Date(d) => d.wf() && d.year >= 1930,
        Value::Time(t) => t.wf(),
    }
}

pub open spec fn field_value_text(f: (Seq<char>, Value)) -> Seq<char> {
    value_text(f.1)->Ok_0
}

/// The token that the tag of a field gives back.
pub open spec fn field_token(f: (Seq<char>, Value)) -> TokenView {
    TokenView {
        key: f.0,
        len: saturate(field_value_text(f).len()),
        ty: type_indicator(f.1),
        value: field_value_text(f),
    }
}

pub open spec fn field_wire(f: (Seq<char>, Value)) -> Seq<char> {
    tag_text(f.0, type_indicator(f.1), field_value_text(f))
}

/// What a field that round-trips writes, and that its text reads back as it.
proof fn lemma_field_text(f: (Seq<char>, Value))
    requires
        wire_round_trips(f),
    ensures
        tag_result(f) == Ok::<Seq<char>, crate::value::ErrorView>(field_wire(f)),
        is_plain_text(field_value_text(f)),
        decode_value(type_indicator(f.1), field_value_text(f)) == Ok::<
            Value,
            crate::parser::ParseErrorKind,
        >(f.1),
{
    let k = f.0;
    assert(is_ascii_text(k));
    assert(ascii_upper_text(k) =~= k);
    assert(normalize_key(k) =~= k);
    let vt = field_value_text(f);
    match f.1 {
        Value::Str(t) => {},
        Value::Boolean(b) => {
            assert(vt.last() == vt[0]);
            assert(!(seq!['N'] =~= seq!['Y']) && !(seq!['N'] =~= seq!['y']));
        },
        Value::Date(d) => {
            lemma_dec_digits(d.year as nat);
            lemma_dec_digits(d.month as nat);
            lemma_dec_digits(d.day as nat);
            lemma_padded(d.year as nat, 4);
            lemma_padded(d.month as nat, 2);
            lemma_padded(d.day as nat, 2);
            let (py, pm, pd) = (padded(d.year as nat, 4), padded(d.month as nat, 2), padded(d.day as nat, 2));
            assert(vt == py + pm + pd);
            assert(vt.subrange(0, 4) =~= py);
            assert(vt.subrange(4, 6) =~= pm);
            assert(vt.subrange(6, 8) =~= pd);
            assert(all_digit_chars(vt));
            assert(forall|i: int| 0 <= i < vt.len() ==> is_digit(#[trigger] vt[i]) && (vt[i] as u32) < 128 && vt[i] != '<' && !is_ws(vt[i]));
        },
        Value::Time(t) => {
            lemma_dec_digits(t.hour as nat);
            lemma_dec_digits(t.minute as nat);
            lemma_dec_digits(t.second as nat);
            lemma_padded(t.hour as nat, 2);
            lemma_padded(t.minute as nat, 2);
            lemma_padded(t.second as nat, 2);
            let (ph, pm, ps) = (padded(t.hour as nat, 2), padded(t.minute as nat, 2), padded(t.second as nat, 2));
            assert(vt == ph + pm + ps);
            assert(vt.subrange(0, 2) =~= ph);
            assert(vt.subrange(2, 4) =~= pm);
            assert(vt.subrange(4, 6) =~= ps);
            assert(all_digit_chars(vt));
            assert(forall|i: int| 0 <= i < vt.len() ==> is_digit(#[trigger] vt[i]) && (vt[i] as u32) < 128 && vt[i] != '<' && !is_ws(vt[i]));
        },
        Value::Number(n) => {
            lemma_number_round_trip(n);
            lemma_number_text_plain(n);
            assert forall|i: int| 0 <= i < vt.len() implies (vt[i] as u32) < 128 && #[trigger] vt[i]
                != '<' && !is_linebreak(vt[i]) by {
                assert(vt[i] == '-' || is_digit(vt[i]) || vt[i] == '.');
            }
        },
    }
}


/// What may follow a tag before the next one: nothing, or a line break.
pub open spec fn is_sep(sep: Seq<char>) -> bool {
    sep.len() == 0 || sep == seq!['\n']
}

/// Where the parts of a field's tag lie when the tag starts at `p`: the
/// colon after the key, the end of the length, the start and end of the value.
pub open spec fn tag_marks(p: int, f: (Seq<char>, Value)) -> (int, int, int, int) {
    let ke = p + 1 + f.0.len();
    let de = ke + 1 + dec_digits(field_value_text(f).len()).len();
    let vs = de + indicator_text(type_indicator(f.1)).len() + 1;
    (ke, de, vs, vs + field_value_text(f).len())
}

/// The tag of a field, then `sep`, stand at `p` in `s`, and a tag or the end follows.
pub open spec fn tag_placed(s: Seq<char>, p: int, f: (Seq<char>, Value), sep: Seq<char>) -> bool {
    &&& wire_round_trips(f)
    &&& is_sep(sep)
    &&& 0 <= p
    &&& p + field_wire(f).len() + sep.len() <= s.len()
    &&& s.subrange(p, p + field_wire(f).len() + sep.len()) == field_wire(f) + sep
    &&& p + field_wire(f).len() + sep.len() == s.len() || s[p + field_wire(f).len() + sep.len()]
        == '<'
}

#[verifier::rlimit(40)]
proof fn lemma_tag_layout(s: Seq<char>, p: int, f: (Seq<char>, Value), sep: Seq<char>)
    requires
        tag_placed(s, p, f, sep),
    ensures
        ({
            let (ke, de, vs, we) = tag_marks(p, f);
            let k = f.0;
            let dd = dec_digits(field_value_text(f).len());
            let vt = field_value_text(f);
            &&& we == p + field_wire(f).len()
            &&& s[p] == '<'
            &&& (forall|q: int| p + 1 <= q < ke ==> is_key_char(#[trigger] s[q]) && s[q] == k[q - p - 1])
            &&& s[ke] == ':'
            &&& (forall|q: int| ke + 1 <= q < de ==> is_digit(#[trigger] s[q]) && s[q] == dd[q - ke - 1])
            &&& match type_indicator(f.1) {
                Some(c) => s[de] == ':' && s[de + 1] == c && s[de + 2] == '>' && vs == de + 3,
                None => s[de] == '>' && vs == de + 1,
            }
            &&& (forall|q: int| vs <= q < we ==> #[trigger] s[q] == vt[q - vs])
            &&& (forall|q: int| we <= q < we + sep.len() ==> #[trigger] s[q] == sep[q - we])
        }),
{
    lemma_field_text(f);
    let k = f.0;
    let vt = field_value_text(f);
    let ty = type_indicator(f.1);
    let dd = dec_digits(vt.len());
    lemma_dec_digits(vt.len());
    let ind = indicator_text(ty);
    let w = field_wire(f);
    let e = p + w.len() + sep.len();
    assert(w == seq!['<'] + k + seq![':'] + dd + ind + seq!['>'] + vt);
    let (ke, de, vs, we) = tag_marks(p, f);
    assert forall|q: int| 0 <= q < e - p implies s[p + q] == #[trigger] (w + sep)[q] by {
        assert(s.subrange(p, e)[q] == s[p + q]);
    }
    assert(s[p] == (w + sep)[0]);
    assert forall|q: int| p + 1 <= q < ke implies is_key_char(#[trigger] s[q]) && s[q] == k[q - p - 1] by {
        assert(s[p + (q - p)] == (w + sep)[q - p]);
    }
    assert(s[p + (ke - p)] == (w + sep)[ke - p]);
    assert forall|q: int| ke + 1 <= q < de implies is_digit(#[trigger] s[q]) && s[q] == dd[q - ke - 1] by {
        assert(s[p + (q - p)] == (w + sep)[q - p]);
    }
    assert(s[p + (de - p)] == (w + sep)[de - p]);
    match ty {
        Some(c) => {
            assert(s[p + (de + 1 - p)] == (w + sep)[de + 1 - p]);
            assert(s[p + (de + 2 - p)] == (w + sep)[de + 2 - p]);
        },
        None => {},
    }
    assert forall|q: int| vs <= q < we implies #[trigger] s[q] == vt[q - vs] by {
        assert(s[p + (q - p)] == (w + sep)[q - p]);
    }
    assert forall|q: int| we <= q < we + sep.len() implies #[trigger] s[q] == sep[q - we] by {
        assert(s[p + (q - p)] == (w + sep)[q - p]);
    }
}

/// A field's tag, followed by `sep` and then by `<` or the end of the text,
/// reads back as the field's token.
#[verifier::rlimit(40)]
proof fn lemma_one_tag(s: Seq<char>, p: int, f: (Seq<char>, Value), sep: Seq<char>)
    requires
        tag_placed(s, p, f, sep),
    ensures
        tokens_from(s, p) == seq![field_token(f)] + tokens_from(
            s,
            p + field_wire(f).len() + sep.len(),
        ),
{
    lemma_field_text(f);
    lemma_tag_layout(s, p, f, sep);
    lemma_dec_digits(field_value_text(f).len());
    let k = f.0;
    let vt = field_value_text(f);
    let ty = type_indicator(f.1);
    let dd = dec_digits(vt.len());
    let (ke, de, vs, we) = tag_marks(p, f);
    let e = we + sep.len();
    lemma_key_end_is(s, p + 1, ke);
    lemma_digit_end_is(s, ke + 1, de);
    assert(tag_head(s, p) == Some((ke, de, ty, vs)));
    assert forall|q: int| vs <= q < e implies #[trigger] s[q] != '<' by {
        if q < we {
            assert(s[q] == vt[q - vs]);
        } else {
            assert(s[q] == sep[q - we]);
        }
    }
    lemma_value_run(s, vs, e);
    assert forall|q: int| we <= q < e implies is_ws(#[trigger] s[q]) by {
        assert(s[q] == sep[q - we]);
    }
    if vt.len() > 0 {
        assert(s[we - 1] == vt[vt.len() - 1]);
    }
    lemma_trim_run(s, vs, we, e);
    assert(s.subrange(p + 1, ke) =~= k);
    assert(ascii_upper_text(k) =~= k);
    assert(s.subrange(ke + 1, de) =~= dd);
    assert(s.subrange(vs, we) =~= vt);
    assert(upper_opt(ty) == ty);
    assert(token_at(s, p, (ke, de, ty, vs)) == field_token(f));
}

/// No terminator starts inside a field's tag and what follows it.
#[verifier::rlimit(40)]
proof fn lemma_tag_no_term(s: Seq<char>, p: int, f: (Seq<char>, Value), sep: Seq<char>)
    requires
        tag_placed(s, p, f, sep),
    ensures
        forall|i: int|
            p <= i < p + field_wire(f).len() + sep.len() ==> !term_at(s, i, eor()) && !term_at(
                s,
                i,
                eoh(),
            ),
{
    lemma_field_text(f);
    lemma_tag_layout(s, p, f, sep);
    let k = f.0;
    let vt = field_value_text(f);
    let (ke, de, vs, we) = tag_marks(p, f);
    let e = we + sep.len();
    assert forall|i: int| p < i < e implies #[trigger] s[i] != '<' by {
        if i < ke {
        } else if ke < i < de {
        } else if vs <= i < we {
            assert(s[i] == vt[i - vs]);
        } else if we <= i {
            assert(s[i] == sep[i - we]);
        }
    }
    assert forall|i: int| p <= i < e implies !term_at(s, i, eor()) && !term_at(s, i, eoh()) by {
        if term_at(s, i, eor()) || term_at(s, i, eoh()) {
            let u = ascii_upper_text(s.subrange(i, i + 5));
            assert(u[0] == ascii_upper(s[i]));
            if i == p {
                if k.len() <= 3 {
                    let j: int = 1 + k.len() as int;
                    assert(u[j] == ascii_upper(s[p + j]));
                } else {
                    assert(u[4] == ascii_upper(s[p + 4]));
                }
            } else {
                assert(s[i] != '<');
            }
        }
    }
}


/// The tags of the fields, each followed by `sep`.
pub open spec fn chunks(e: Seq<(Seq<char>, Value)>, sep: Seq<char>) -> Seq<char>
    decreases e.len(),
{
    if e.len() == 0 {
        Seq::empty()
    } else {
        field_wire(e[0]) + sep + chunks(e.drop_first(), sep)
    }
}

pub open spec fn all_wire_round_trip(e: Seq<(Seq<char>, Value)>) -> bool {
    forall|i: int| 0 <= i < e.len() ==> wire_round_trips(#[trigger] e[i])
}

pub open spec fn field_tokens(e: Seq<(Seq<char>, Value)>) -> Seq<TokenView> {
    e.map_values(|f: (Seq<char>, Value)| field_token(f))
}

/// The tags of fields laid one after another read back as the fields' tokens.
#[verifier::rlimit(40)]
proof fn lemma_walk(s: Seq<char>, p: int, e: Seq<(Seq<char>, Value)>, sep: Seq<char>)
    requires
        all_wire_round_trip(e),
        is_sep(sep),
        0 <= p,
        p + chunks(e, sep).len() <= s.len(),
        s.subrange(p, p + chunks(e, sep).len()) == chunks(e, sep),
        p + chunks(e, sep).len() == s.len() || s[p + chunks(e, sep).len()] == '<',
    ensures
        tokens_from(s, p) == field_tokens(e) + tokens_from(s, p + chunks(e, sep).len()),
        forall|i: int|
            p <= i < p + chunks(e, sep).len() ==> !term_at(s, i, eor()) && !term_at(s, i, eoh()),
    decreases e.len(),
{
    if e.len() == 0 {
        assert(field_tokens(e) =~= Seq::<TokenView>::empty());
    } else {
        let f = e[0];
        let rest = e.drop_first();
        let c0 = field_wire(f) + sep;
        let q = p + c0.len();
        let n: int = chunks(e, sep).len() as int;
        assert(chunks(e, sep) == c0 + chunks(rest, sep));
        assert(s.subrange(p, q) =~= s.subrange(p, p + n).subrange(0, c0.len() as int));
        assert((c0 + chunks(rest, sep)).subrange(0, c0.len() as int) =~= c0);
        assert((c0 + chunks(rest, sep)).subrange(c0.len() as int, n) =~= chunks(rest, sep));
        assert(s.subrange(q, p + n) =~= s.subrange(p, p + n).subrange(c0.len() as int, n));
        assert(all_wire_round_trip(rest)) by {
            assert forall|i: int| 0 <= i < rest.len() implies wire_round_trips(#[trigger] rest[i]) by {
                assert(rest[i] == e[i + 1]);
            }
        }
        if rest.len() > 0 {
            assert(field_wire(rest[0])[0] == '<');
            assert(chunks(rest, sep)[0] == '<');
            assert(s[q] == s.subrange(q, p + n)[0]);
        }
        assert(wire_round_trips(f));
        assert(tag_placed(s, p, f, sep));
        lemma_one_tag(s, p, f, sep);
        lemma_tag_no_term(s, p, f, sep);
        lemma_walk(s, q, rest, sep);
        assert(field_tokens(e) =~= seq![field_token(f)] + field_tokens(rest));
    }
}

/// Where no `<` stands from `i` to `j`, the scan finds nothing there.
proof fn lemma_tokens_skip(s: Seq<char>, i: int, j: int)
    requires
        0 <= i <= j <= s.len(),
        forall|q: int| i <= q < j ==> #[trigger] s[q] != '<',
    ensures
        tokens_from(s, i) == tokens_from(s, j),
    decreases j - i,
{
    if i < j {
        lemma_tokens_skip(s, i + 1, j);
    }
}

/// No terminator starts where no `<` stands.
proof fn lemma_no_term_without_lt(s: Seq<char>, i: int, t: Seq<char>)
    requires
        0 <= i < s.len(),
        s[i] != '<',
        t[0] == '<',
        t.len() == 5,
    ensures
        !term_at(s, i, t),
{
    if term_at(s, i, t) {
        assert(ascii_upper_text(s.subrange(i, i + 5))[0] == ascii_upper(s[i]));
    }
}

proof fn lemma_first_term_skip(s: Seq<char>, t: Seq<char>, i: int, j: int)
    requires
        0 <= i <= j <= s.len(),
        forall|q: int| i <= q < j ==> !term_at(s, q, t),
    ensures
        first_term(s, t, i) == first_term(s, t, j),
    decreases j - i,
{
    if i < j {
        lemma_first_term_skip(s, t, i + 1, j);
    }
}

proof fn lemma_split_skip(s: Seq<char>, t: Seq<char>, start: int, i: int, j: int)
    requires
        0 <= i <= j <= s.len(),
        forall|q: int| i <= q < j ==> !term_at(s, q, t),
    ensures
        split_from(s, t, start, i) == split_from(s, t, start, j),
    decreases j - i,
{
    if i < j {
        lemma_split_skip(s, t, start, i + 1, j);
    }
}

/// Tokens of fields with distinct keys, each of which reads back as it was,
/// make those fields again.
proof fn lemma_fields_back(e: Seq<(Seq<char>, Value)>)
    requires
        all_wire_round_trip(e),
        unique_keys(e),
    ensures
        fields_of(field_tokens(e)) == Ok::<Seq<(Seq<char>, Value)>, ParseErrorView>(e),
    decreases e.len(),
{
    if e.len() > 0 {
        let init = e.drop_last();
        assert(all_wire_round_trip(init)) by {
            assert forall|i: int| 0 <= i < init.len() implies wire_round_trips(#[trigger] init[i]) by {
                assert(init[i] == e[i]);
            }
        }
        assert(unique_keys(init)) by {
            assert forall|a: int, b: int| 0 <= a < b < init.len() implies upper_text(
                #[trigger] init[a].0,
            ) != upper_text(#[trigger] init[b].0) by {
                assert(init[a] == e[a] && init[b] == e[b]);
            }
        }
        lemma_fields_back(init);
        assert(field_tokens(e).drop_last() =~= field_tokens(init));
        let f = e.last();
        assert(wire_round_trips(e[e.len() - 1]));
        lemma_field_text(f);
        assert forall|j: int| 0 <= j < init.len() implies upper_text(init[j].0) != upper_text(
            f.0,
        ) by {
            assert(init[j] == e[j]);
            assert(upper_text(e[j].0) != upper_text(e[e.len() - 1].0));
        }
        assert(key_position(init, f.0) is None);
        assert(field_tokens(e).last() == field_token(f));
        assert(entries_insert(init, f.0, f.1) == init.push(f));
        assert(init.push(f) =~= e);
        let ts = field_tokens(e);
        assert(fields_of(ts.drop_last()) == Ok::<Seq<(Seq<char>, Value)>, ParseErrorView>(init));
        assert(decode_value(ts.last().ty, ts.last().value) == Ok::<
            Value,
            crate::parser::ParseErrorKind,
        >(f.1));
        assert(fields_of(ts) == Ok::<Seq<(Seq<char>, Value)>, ParseErrorView>(
            entries_insert(init, f.0, f.1),
        ));
    } else {
        assert(field_tokens(e) =~= Seq::<TokenView>::empty());
        assert(e =~= Seq::<(Seq<char>, Value)>::empty());
    }
}

proof fn lemma_chunks_last(e: Seq<(Seq<char>, Value)>, sep: Seq<char>)
    requires
        e.len() > 0,
    ensures
        chunks(e, sep) == chunks(e.drop_last(), sep) + field_wire(e.last()) + sep,
    decreases e.len(),
{
    if e.len() == 1 {
        assert(e.drop_first() =~= Seq::<(Seq<char>, Value)>::empty());
        assert(e.drop_last() =~= Seq::<(Seq<char>, Value)>::empty());
        assert(chunks(e.drop_first(), sep) == Seq::<char>::empty());
        assert(chunks(e.drop_last(), sep) == Seq::<char>::empty());
        assert(e.last() == e[0]);
        assert(chunks(e, sep) =~= chunks(e.drop_last(), sep) + field_wire(e.last()) + sep);
    } else {
        lemma_chunks_last(e.drop_first(), sep);
        assert(e.drop_first().drop_last() =~= e.drop_last().drop_first());
        assert(e.drop_last()[0] == e[0]);
        assert(e.drop_first().last() == e.last());
        assert(chunks(e, sep) =~= chunks(e.drop_last(), sep) + field_wire(e.last()) + sep);
    }
}

/// The tags of fields that round-trip, joined by `sep`, are their chunks
/// less the last `sep`.
proof fn lemma_tags_chunks(e: Seq<(Seq<char>, Value)>, sep: Seq<char>)
    requires
        all_wire_round_trip(e),
    ensures
        tags_result(e, sep) is Ok,
        e.len() == 0 ==> tags_result(e, sep)->Ok_0 == Seq::<char>::empty(),
        e.len() > 0 ==> tags_result(e, sep)->Ok_0 + sep == chunks(e, sep),
    decreases e.len(),
{
    if e.len() > 0 {
        let init = e.drop_last();
        assert(all_wire_round_trip(init)) by {
            assert forall|i: int| 0 <= i < init.len() implies wire_round_trips(#[trigger] init[i]) by {
                assert(init[i] == e[i]);
            }
        }
        lemma_tags_chunks(init, sep);
        assert(wire_round_trips(e[e.len() - 1]));
        lemma_field_text(e.last());
        lemma_chunks_last(e, sep);
        if e.len() == 1 {
            assert(chunks(init, sep) =~= Seq::<char>::empty());
        }
        assert(tags_result(e, sep)->Ok_0 + sep =~= chunks(e, sep));
    }
}


/// Past the last tag of a text nothing more is found when no `<` follows.
proof fn lemma_tokens_none(s: Seq<char>, i: int)
    requires
        0 <= i <= s.len(),
        forall|q: int| i <= q < s.len() ==> #[trigger] s[q] != '<',
    ensures
        tokens_from(s, i) == Seq::<TokenView>::empty(),
{
    lemma_tokens_skip(s, i, s.len() as int);
}

/// The tags of fields alone read back as the fields' tokens.
proof fn lemma_chunks_tokens(r: Seq<(Seq<char>, Value)>, sep: Seq<char>)
    requires
        all_wire_round_trip(r),
        is_sep(sep),
    ensures
        tokens_from(chunks(r, sep), 0) == field_tokens(r),
        forall|i: int|
            0 <= i < chunks(r, sep).len() ==> !term_at(chunks(r, sep), i, eor()) && !term_at(
                chunks(r, sep),
                i,
                eoh(),
            ),
{
    let c = chunks(r, sep);
    assert(c.subrange(0, c.len() as int) =~= c);
    lemma_walk(c, 0, r, sep);
    assert(tokens_from(c, c.len() as int) == Seq::<TokenView>::empty());
    assert(field_tokens(r) + Seq::<TokenView>::empty() =~= field_tokens(r));
}

/// The text of a record whose fields round-trip: its tags, then `<eor>`.
proof fn lemma_record_text(r: Seq<(Seq<char>, Value)>)
    requires
        all_wire_round_trip(r),
    ensures
        record_result(r) == Ok::<Seq<char>, ErrorView>(
            chunks(r, Seq::empty()) + seq!['<', 'e', 'o', 'r', '>'],
        ),
{
    let sep = Seq::<char>::empty();
    lemma_tags_chunks(r, sep);
    let c = chunks(r, sep);
    if r.len() > 0 {
        assert(tags_result(r, sep)->Ok_0 + sep =~= tags_result(r, sep)->Ok_0);
    } else {
        assert(c == Seq::<char>::empty());
    }
}

/// How the text of such a record reads: its tokens are the fields' tokens,
/// it holds no header terminator, and it splits into the tags and an empty piece.
#[verifier::rlimit(40)]
proof fn lemma_record_text_reads(r: Seq<(Seq<char>, Value)>)
    requires
        all_wire_round_trip(r),
    ensures
        ({
            let c = chunks(r, Seq::empty());
            let x = c + seq!['<', 'e', 'o', 'r', '>'];
            &&& tokens_from(x, 0) == field_tokens(r)
            &&& first_term(x, eoh(), 0) is None
            &&& split_terms(x, eor()) == seq![c, Seq::<char>::empty()]
        }),
{
    let sep = Seq::<char>::empty();
    let c = chunks(r, sep);
    let term = seq!['<', 'e', 'o', 'r', '>'];
    let x = c + term;
    let n = c.len() as int;
    assert(x.subrange(0, n) =~= c);
    assert(x[n] == '<');
    lemma_walk(x, 0, r, sep);
    assert(ascii_upper_text(x.subrange(n, n + 5)) =~= eor());
    assert(!term_at(x, n, eoh())) by {
        assert(ascii_upper_text(x.subrange(n, n + 5))[3] == 'R');
    }
    assert forall|q: int| n < q < x.len() implies #[trigger] x[q] != '<' by {
        assert(x[q] == term[q - n]);
    }
    assert forall|q: int| n < q < x.len() implies !term_at(x, q, eoh()) by {
        lemma_no_term_without_lt(x, q, eoh());
    }
    assert(x[n + 1] == 'e' && x[n + 2] == 'o' && x[n + 3] == 'r' && x[n + 4] == '>');
    lemma_key_end_is(x, n + 1, n + 4);
    lemma_tokens_none(x, n + 1);
    assert(tokens_from(x, n) == Seq::<TokenView>::empty());
    assert(field_tokens(r) + Seq::<TokenView>::empty() =~= field_tokens(r));
    lemma_first_term_skip(x, eoh(), 0, n);
    lemma_first_term_skip(x, eoh(), n, x.len() as int);
    lemma_split_skip(x, eor(), 0, 0, n);
    assert(term_at(x, n, eor()));
    assert(split_from(x, eor(), 0, n) == seq![x.subrange(0, n)] + split_from(x, eor(), n + 5, n + 5));
    assert(split_from(x, eor(), n + 5, n + 5) == seq![x.subrange(n + 5, n + 5)]);
    assert(x.subrange(n + 5, n + 5) =~= Seq::<char>::empty());
    assert(split_terms(x, eor()) =~= seq![c, Seq::<char>::empty()]);
}

/// A record whose fields all round-trip comes back from its text: the text
/// is read as one record with the same fields in the same order, followed
/// by the empty record after the closing `<eor>`.
#[verifier::rlimit(40)]
proof fn lemma_wire_record_round_trip(r: Seq<(Seq<char>, Value)>)
    requires
        unique_keys(r),
        all_wire_round_trip(r),
    ensures
        record_result(r) is Ok,
        parse_result(record_result(r)->Ok_0) is Ok,
        parse_result(record_result(r)->Ok_0)->Ok_0.1 == seq![r, Seq::empty()],
{
    let sep = Seq::<char>::empty();
    let c = chunks(r, sep);
    let x = c + seq!['<', 'e', 'o', 'r', '>'];
    lemma_record_text(r);
    lemma_record_text_reads(r);
    lemma_chunks_tokens(r, sep);
    lemma_fields_back(r);
    assert(header_raw(x) == x);
    assert(body_raw(x) == x);
    let segs = seq![c, Seq::<char>::empty()];
    assert(segs.drop_last() =~= seq![c]);
    assert(seq![c].drop_last() =~= Seq::<Seq<char>>::empty());
    assert(tokens_from(Seq::<char>::empty(), 0) == Seq::<TokenView>::empty());
    assert(fields_of(Seq::<TokenView>::empty()) == Ok::<Seq<(Seq<char>, Value)>, ParseErrorView>(
        Seq::empty(),
    ));
    assert(seq![c].last() == c);
    assert(records_of(Seq::<Seq<char>>::empty()) == Ok::<Seq<Seq<(Seq<char>, Value)>>, ParseErrorView>(Seq::empty()));
    assert(fields_of(crate::token::tokens_of(c)) == Ok::<Seq<(Seq<char>, Value)>, ParseErrorView>(r));
    assert(Seq::<Seq<(Seq<char>, Value)>>::empty().push(r) =~= seq![r]);
    assert(records_of(seq![c]) == Ok::<Seq<Seq<(Seq<char>, Value)>>, ParseErrorView>(seq![r]));
    assert(segs.last() == Seq::<char>::empty());
    assert(fields_of(crate::token::tokens_of(Seq::<char>::empty())) == Ok::<Seq<(Seq<char>, Value)>, ParseErrorView>(Seq::empty()));
    assert(seq![r].push(Seq::<(Seq<char>, Value)>::empty()) =~= seq![r, Seq::empty()]);
    assert(records_of(segs) == Ok::<Seq<Seq<(Seq<char>, Value)>>, ParseErrorView>(
        seq![r, Seq::empty()],
    ));
}


proof fn lemma_padded_digits(n: nat, w: nat)
    ensures
        all_digit_chars(padded(n, w)),
{
    lemma_dec_digits(n);
    let d = dec_digits(n);
    if d.len() < w {
        let z = zeros((w - d.len()) as nat);
        assert forall|i: int| 0 <= i < padded(n, w).len() implies is_digit(
            #[trigger] padded(n, w)[i],
        ) by {
            if i >= z.len() {
                assert(padded(n, w)[i] == d[i - z.len()]);
            }
        }
    }
}

pub open spec fn no_lt(s: Seq<char>) -> bool {
    forall|i: int| 0 <= i < s.len() ==> #[trigger] s[i] != '<'
}

proof fn lemma_digits_no_lt(s: Seq<char>)
    requires
        all_digit_chars(s),
    ensures
        no_lt(s),
{
    assert forall|i: int| 0 <= i < s.len() implies #[trigger] s[i] != '<' by {
        assert(is_digit(s[i]));
    }
}

proof fn lemma_no_lt_concat(a: Seq<char>, b: Seq<char>)
    requires
        no_lt(a),
        no_lt(b),
    ensures
        no_lt(a + b),
{
    assert forall|i: int| 0 <= i < (a + b).len() implies #[trigger] (a + b)[i] != '<' by {
        if i < a.len() {
            assert((a + b)[i] == a[i]);
        } else {
            assert((a + b)[i] == b[i - a.len()]);
        }
    }
}

/// The line that says when a header was made holds no `<`.
proof fn lemma_banner_no_lt(d: Date, t: Time)
    ensures
        no_lt(
            seq!['G', 'e', 'n', 'e', 'r', 'a', 't', 'e', 'd', ' '] + stamp_text(d, t) + seq![
                ' ',
                '(',
                'U',
                'T',
                'C',
                ')',
                '\n',
                '\n',
            ],
        ),
{
    let y = if d.year < 0 {
        seq!['-'] + padded((-d.year) as nat, 4)
    } else {
        padded(d.year as nat, 4)
    };
    lemma_padded_digits((-d.year) as nat, 4);
    lemma_padded_digits(d.year as nat, 4);
    lemma_padded_digits(d.month as nat, 2);
    lemma_padded_digits(d.day as nat, 2);
    lemma_padded_digits(t.hour as nat, 2);
    lemma_padded_digits(t.minute as nat, 2);
    lemma_padded_digits(t.second as nat, 2);
    lemma_digits_no_lt(padded((-d.year) as nat, 4));
    lemma_digits_no_lt(padded(d.year as nat, 4));
    lemma_digits_no_lt(padded(d.month as nat, 2));
    lemma_digits_no_lt(padded(d.day as nat, 2));
    lemma_digits_no_lt(padded(t.hour as nat, 2));
    lemma_digits_no_lt(padded(t.minute as nat, 2));
    lemma_digits_no_lt(padded(t.second as nat, 2));
    assert(no_lt(seq!['-']));
    assert(no_lt(seq![':']));
    assert(no_lt(seq![' ']));
    lemma_no_lt_concat(seq!['-'], padded((-d.year) as nat, 4));
    assert(no_lt(y));
    lemma_no_lt_concat(y, seq!['-']);
    lemma_no_lt_concat(y + seq!['-'], padded(d.month as nat, 2));
    lemma_no_lt_concat(y + seq!['-'] + padded(d.month as nat, 2), seq!['-']);
    lemma_no_lt_concat(y + seq!['-'] + padded(d.month as nat, 2) + seq!['-'], padded(d.day as nat, 2));
    assert(no_lt(date_display(d)));
    lemma_no_lt_concat(padded(t.hour as nat, 2), seq![':']);
    lemma_no_lt_concat(padded(t.hour as nat, 2) + seq![':'], padded(t.minute as nat, 2));
    lemma_no_lt_concat(padded(t.hour as nat, 2) + seq![':'] + padded(t.minute as nat, 2), seq![':']);
    lemma_no_lt_concat(
        padded(t.hour as nat, 2) + seq![':'] + padded(t.minute as nat, 2) + seq![':'],
        padded(t.second as nat, 2),
    );
    assert(no_lt(time_display(t)));
    lemma_no_lt_concat(date_display(d), seq![' ']);
    lemma_no_lt_concat(date_display(d) + seq![' '], time_display(t));
    let g = seq!['G', 'e', 'n', 'e', 'r', 'a', 't', 'e', 'd', ' '];
    let u = seq![' ', '(', 'U', 'T', 'C', ')', '\n', '\n'];
    assert(no_lt(g));
    assert(no_lt(u));
    lemma_no_lt_concat(g, stamp_text(d, t));
    lemma_no_lt_concat(g + stamp_text(d, t), u);
}

/// How a text laid out as `p`, then the tags of `h` each followed by a line
/// break, then `<EOH>`, reads when `p` holds no `<`.
#[verifier::rlimit(40)]
proof fn lemma_header_text_reads(p: Seq<char>, h: Seq<(Seq<char>, Value)>)
    requires
        no_lt(p),
        all_wire_round_trip(h),
    ensures
        ({
            let c = chunks(h, seq!['\n']);
            let x = p + c + seq!['<', 'E', 'O', 'H', '>'];
            &&& header_raw(x) == p + c
            &&& body_raw(x) == Seq::<char>::empty()
            &&& tokens_from(p + c, 0) == field_tokens(h)
        }),
{
    let sep = seq!['\n'];
    let c = chunks(h, sep);
    let term = seq!['<', 'E', 'O', 'H', '>'];
    let x = p + c + term;
    let a = p.len() as int;
    let m = a + c.len();
    assert(x.subrange(a, m) =~= c);
    assert(x[m] == '<');
    lemma_walk(x, a, h, sep);
    assert forall|q: int| 0 <= q < a implies !term_at(x, q, eoh()) by {
        assert(x[q] == p[q]);
        lemma_no_term_without_lt(x, q, eoh());
    }
    lemma_first_term_skip(x, eoh(), 0, a);
    lemma_first_term_skip(x, eoh(), a, m);
    assert(ascii_upper_text(x.subrange(m, m + 5)) =~= eoh());
    assert(first_term(x, eoh(), m) == Some(m));
    assert(x.subrange(0, m) =~= p + c);
    assert(x.subrange(m + 5, x.len() as int) =~= Seq::<char>::empty());
    let y = p + c;
    assert(y.subrange(a, m) =~= c);
    lemma_walk(y, a, h, sep);
    assert forall|q: int| 0 <= q < a implies #[trigger] y[q] != '<' by {
        assert(y[q] == p[q]);
    }
    lemma_tokens_skip(y, 0, a);
    assert(tokens_from(y, m) == Seq::<TokenView>::empty());
    assert(field_tokens(h) + Seq::<TokenView>::empty() =~= field_tokens(h));
}

/// A header whose fields all round-trip comes back from its text: the text
/// is read as a header with the same fields in the same order, whatever
/// time it was stamped with.
#[verifier::rlimit(40)]
proof fn lemma_wire_header_round_trip(h: Seq<(Seq<char>, Value)>, d: Date, t: Time)
    requires
        unique_keys(h),
        all_wire_round_trip(h),
    ensures
        header_result(h, d, t) is Ok,
        parse_result(header_result(h, d, t)->Ok_0) is Ok,
        parse_result(header_result(h, d, t)->Ok_0)->Ok_0.0 == h,
{
    let sep = seq!['\n'];
    let c = chunks(h, sep);
    let banner = seq!['G', 'e', 'n', 'e', 'r', 'a', 't', 'e', 'd', ' '] + stamp_text(d, t) + seq![
        ' ',
        '(',
        'U',
        'T',
        'C',
        ')',
        '\n',
        '\n',
    ];
    let term = seq!['<', 'E', 'O', 'H', '>'];
    lemma_banner_no_lt(d, t);
    lemma_tags_chunks(h, sep);
    let g = tags_result(h, sep)->Ok_0;
    let p = if h.len() > 0 {
        banner
    } else {
        banner + sep
    };
    assert(no_lt(p)) by {
        assert(no_lt(sep));
        lemma_no_lt_concat(banner, sep);
    }
    assert(header_result(h, d, t)->Ok_0 =~= p + c + term) by {
        if h.len() == 0 {
            assert(c == Seq::<char>::empty());
        }
    }
    lemma_header_text_reads(p, h);
    lemma_fields_back(h);
    let x = p + c + term;
    assert(Seq::<char>::empty().subrange(0, 0) =~= Seq::<char>::empty());
    assert(split_terms(Seq::<char>::empty(), eor()) == seq![Seq::<char>::empty()]);
    assert(seq![Seq::<char>::empty()].drop_last() =~= Seq::<Seq<char>>::empty());
    assert(tokens_from(Seq::<char>::empty(), 0) == Seq::<TokenView>::empty());
    assert(fields_of(Seq::<TokenView>::empty()) is Ok);
    assert(seq![Seq::<char>::empty()].last() == Seq::<char>::empty());
    assert(records_of(Seq::<Seq<char>>::empty()) is Ok);
    assert(records_of(seq![Seq::<char>::empty()]) is Ok);
}


/// A key that a tag can carry once it is normalized: ASCII letters,
/// underscores and spaces, at least one.
pub open spec fn is_plain_key(k: Seq<char>) -> bool {
    k.len() > 0 && forall|i: int|
        0 <= i < k.len() ==> crate::text::is_ascii_letter(#[trigger] k[i]) || k[i] == '_' || k[i]
            == ' '
}

/// A field whose text reads back as the field under its normalized key: a
/// plain key, and a plain string, a boolean, a number whose mantissa ends in
/// no zero (zero with the exponent 0), a date from 1930 on, or a time.
pub open spec fn round_trips(f: (Seq<char>, Value)) -> bool {
    is_plain_key(f.0) && wire_round_trips((normalize_key(f.0), f.1))
}

pub open spec fn all_round_trip(e: Seq<(Seq<char>, Value)>) -> bool {
    forall|i: int| 0 <= i < e.len() ==> round_trips(#[trigger] e[i])
}

/// The field under its key as a tag writes it.
pub open spec fn wired(f: (Seq<char>, Value)) -> (Seq<char>, Value) {
    (normalize_key(f.0), f.1)
}

pub open spec fn wired_entries(e: Seq<(Seq<char>, Value)>) -> Seq<(Seq<char>, Value)> {
    e.map_values(|f: (Seq<char>, Value)| wired(f))
}

/// No two keys are the same once normalized.
pub open spec fn distinct_wire_keys(e: Seq<(Seq<char>, Value)>) -> bool {
    forall|i: int, j: int|
        0 <= i < j < e.len() ==> normalize_key(#[trigger] e[i].0) != normalize_key(
            #[trigger] e[j].0,
        )
}

/// A plain key normalizes to a key as it stands in a tag, which normalizing
/// and raising to upper case leave as it is.
proof fn lemma_plain_key(k: Seq<char>)
    requires
        is_plain_key(k),
    ensures
        is_wire_key(normalize_key(k)),
        normalize_key(normalize_key(k)) == normalize_key(k),
        upper_text(normalize_key(k)) == normalize_key(k),
{
    assert(is_ascii_text(k));
    let w = normalize_key(k);
    assert(is_wire_key(w));
    assert(is_ascii_text(w));
    assert(ascii_upper_text(w) =~= w);
    assert(normalize_key(w) =~= w);
}

proof fn lemma_wired_tags(e: Seq<(Seq<char>, Value)>, sep: Seq<char>)
    requires
        all_round_trip(e),
    ensures
        tags_result(e, sep) == tags_result(wired_entries(e), sep),
        all_wire_round_trip(wired_entries(e)),
    decreases e.len(),
{
    if e.len() > 0 {
        let init = e.drop_last();
        assert(all_round_trip(init)) by {
            assert forall|i: int| 0 <= i < init.len() implies round_trips(#[trigger] init[i]) by {
                assert(init[i] == e[i]);
            }
        }
        lemma_wired_tags(init, sep);
        assert(wired_entries(e).drop_last() =~= wired_entries(init));
        assert(round_trips(e[e.len() - 1]));
        lemma_plain_key(e.last().0);
        assert(wired_entries(e).last() == wired(e.last()));
        assert(tag_result(e.last()) == tag_result(wired(e.last())));
    }
    assert forall|i: int| 0 <= i < wired_entries(e).len() implies wire_round_trips(
        #[trigger] wired_entries(e)[i],
    ) by {
        assert(round_trips(e[i]));
        assert(wired_entries(e)[i] == wired(e[i]));
    }
}

proof fn lemma_wired_unique(e: Seq<(Seq<char>, Value)>)
    requires
        all_round_trip(e),
        distinct_wire_keys(e),
    ensures
        unique_keys(wired_entries(e)),
{
    assert forall|a: int, b: int| 0 <= a < b < wired_entries(e).len() implies upper_text(
        #[trigger] wired_entries(e)[a].0,
    ) != upper_text(#[trigger] wired_entries(e)[b].0) by {
        assert(round_trips(e[a]) && round_trips(e[b]));
        lemma_plain_key(e[a].0);
        lemma_plain_key(e[b].0);
    }
}

/// A record whose fields all round-trip, with keys that stay distinct once
/// normalized, comes back from its text: the text is read as one record with
/// the same fields in the same order, each under its normalized key,
/// followed by the empty record after the closing `<eor>`.
pub proof fn lemma_record_round_trip(r: Seq<(Seq<char>, Value)>)
    requires
        distinct_wire_keys(r),
        all_round_trip(r),
    ensures
        record_result(r) is Ok,
        parse_result(record_result(r)->Ok_0) is Ok,
        parse_result(record_result(r)->Ok_0)->Ok_0.1 == seq![wired_entries(r), Seq::empty()],
{
    lemma_wired_tags(r, Seq::empty());
    lemma_wired_unique(r);
    lemma_wire_record_round_trip(wired_entries(r));
}

/// A header whose fields all round-trip, with keys that stay distinct once
/// normalized, comes back from its text: the text is read as a header with
/// the same fields in the same order, each under its normalized key,
/// whatever time it was stamped with.
pub proof fn lemma_header_round_trip(h: Seq<(Seq<char>, Value)>, d: Date, t: Time)
    requires
        distinct_wire_keys(h),
        all_round_trip(h),
    ensures
        header_result(h, d, t) is Ok,
        parse_result(header_result(h, d, t)->Ok_0) is Ok,
        parse_result(header_result(h, d, t)->Ok_0)->Ok_0.0 == wired_entries(h),
{
    lemma_wired_tags(h, seq!['\n']);
    lemma_wired_unique(h);
    lemma_wire_header_round_trip(wired_entries(h), d, t);
}

} // verus!
