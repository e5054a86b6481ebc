//! The tokenizer: it finds the tags `<KEY:LEN[:T]>VALUE` in a text.
use vstd::prelude::*;
use crate::text::{ascii_upper, ascii_upper_text, chars_of, digit_of, digit_value, is_ascii_letter,
    is_digit, is_key_char, push_char, push_range, upper_char};

verus! {

/// One tag as it was found: key and type letter in upper case, the declared
/// length (which nothing checks), and the value with its trailing white space
/// taken off.
#[derive(Debug, Clone, PartialEq, Eq)]
pub struct Token {
    pub key: String,
    pub len: usize,
    pub ty: Option<char>,
    pub value: String,
}

/// A token with its texts as sequences of characters.
pub struct TokenView {
    pub key: Seq<char>,
    pub len: nat,
    pub ty: Option<char>,
    pub value: Seq<char>,
}

impl View for Token {
    type V = TokenView;

    open spec fn view(&self) -> TokenView {
        TokenView { key: self.key@, len: self.len as nat, ty: self.ty, value: self.value@ }
    }
}

pub open spec fn token_views(v: Seq<Token>) -> Seq<TokenView> {
    v.map_values(|t: Token| t@)
}

/// White space as Unicode defines it, which is what `char::is_whitespace` tests.
pub open spec fn is_ws(c: char) -> bool {
    let u = c as u32;
    (0x9 <= u && u <= 0xd) || u == 0x20 || u == 0x85 || u == 0xa0 || u == 0x1680 || (0x2000 <= u
        && u <= 0x200a) || u == 0x2028 || u == 0x2029 || u == 0x202f || u == 0x205f || u == 0x3000
}

pub fn is_whitespace(c: char) -> (r: bool)
    ensures
        r == is_ws(c),
{
    let u = c as u32;
    (0x9 <= u && u <= 0xd) || u == 0x20 || u == 0x85 || u == 0xa0 || u == 0x1680 || (0x2000 <= u
        && u <= 0x200a) || u == 0x2028 || u == 0x2029 || u == 0x202f || u == 0x205f || u == 0x3000
}

/// The end of the run of key characters that starts at `i`.
pub open spec fn key_end(s: Seq<char>, i: int) -> int
    decreases s.len() - i,
{
    if 0 <= i < s.len() && is_key_char(s[i]) {
        key_end(s, i + 1)
    } else {
        i
    }
}

/// The end of the run of ASCII digits that starts at `i`.
pub open spec fn digit_end(s: Seq<char>, i: int) -> int
    decreases s.len() - i,
{
    if 0 <= i < s.len() && is_digit(s[i]) {
        digit_end(s, i + 1)
    } else {
        i
    }
}

/// The first `<` at or after `i`, or the end of the text.
pub open spec fn value_end(s: Seq<char>, i: int) -> int
    decreases s.len() - i,
{
    if 0 <= i < s.len() && s[i] != '<' {
        value_end(s, i + 1)
    } else {
        i
    }
}

/// The end of `s[a..b]` once its trailing white space is taken off.
pub open spec fn trim_end(s: Seq<char>, a: int, b: int) -> int
    decreases b - a,
{
    if a < b && is_ws(s[b - 1]) {
        trim_end(s, a, b - 1)
    } else {
        b
    }
}

/// The number that a run of digits spells.
pub open spec fn digits_val(d: Seq<char>) -> nat
    decreases d.len(),
{
    if d.len() == 0 {
        0
    } else {
        digits_val(d.drop_last()) * 10 + digit_value(d.last())
    }
}

pub open spec fn saturate(n: nat) -> nat {
    if n > usize::MAX {
        usize::MAX as nat
    } else {
        n
    }
}

/// Where a tag starts at `i`: the end of its key, the end of its length, its
/// type letter and where its value starts.
pub open spec fn tag_head(s: Seq<char>, i: int) -> Option<(int, int, Option<char>, int)> {
    if !(0 <= i < s.len() && s[i] == '<') {
        None
    } else {
        let ke = key_end(s, i + 1);
        if ke == i + 1 || ke >= s.len() || s[ke] != ':' {
            None
        } else {
            let de = digit_end(s, ke + 1);
            if de == ke + 1 || de >= s.len() {
                None
            } else if s[de] == '>' {
                Some((ke, de, None, de + 1))
            } else if s[de] == ':' && de + 2 < s.len() && is_ascii_letter(s[de + 1]) && s[de + 2]
                == '>' {
                Some((ke, de, Some(s[de + 1]), de + 3))
            } else {
                None
            }
        }
    }
}

pub open spec fn upper_opt(ty: Option<char>) -> Option<char> {
    match ty {
        Some(c) => Some(ascii_upper(c)),
        None => None,
    }
}

/// The token of the tag that starts at `i`, given its head.
pub open spec fn token_at(s: Seq<char>, i: int, h: (int, int, Option<char>, int)) -> TokenView {
    let (ke, de, ty, vs) = h;
    TokenView {
        key: ascii_upper_text(s.subrange(i + 1, ke)),
        len: saturate(digits_val(s.subrange(ke + 1, de))),
        ty: upper_opt(ty),
        value: s.subrange(vs, trim_end(s, vs, value_end(s, vs))),
    }
}

/// The tokens of `s` from position `i` on, scanning left to right: where no
/// tag starts, the scan moves on by one character; after a tag, it goes on
/// where the tag's value ends.
pub open spec fn tokens_from(s: Seq<char>, i: int) -> Seq<TokenView>
    decreases s.len() - i,
{
    if i < 0 || i >= s.len() {
        Seq::empty()
    } else {
        match tag_head(s, i) {
            Some(h) => {
                let ve = value_end(s, h.3);
                if i < ve <= s.len() {
                    seq![token_at(s, i, h)] + tokens_from(s, ve)
                } else {
                    Seq::empty()
                }
            },
            None => tokens_from(s, i + 1),
        }
    }
}

pub open spec fn tokens_of(s: Seq<char>) -> Seq<TokenView> {
    tokens_from(s, 0)
}

pub(crate) fn key_end_at(cs: &Vec<char>, i: usize) -> (r: usize)
    requires
        i <= cs@.len(),
    ensures
        r == key_end(cs@, i as int),
        i <= r <= cs@.len(),
{
    let mut j = i;
    while j < cs.len() && (('a' <= cs[j] && cs[j] <= 'z') || ('A' <= cs[j] && cs[j] <= 'Z')
        || cs[j] == '_')
        invariant
            i <= j <= cs@.len(),
            key_end(cs@, i as int) == key_end(cs@, j as int),
        decreases cs.len() - j,
    {
        j = j + 1;
    }
    j
}

pub(crate) fn digit_end_at(cs: &Vec<char>, i: usize) -> (r: usize)
    requires
        i <= cs@.len(),
    ensures
        r == digit_end(cs@, i as int),
        i <= r <= cs@.len(),
{
    let mut j = i;
    while j < cs.len() && '0' <= cs[j] && cs[j] <= '9'
        invariant
            i <= j <= cs@.len(),
            digit_end(cs@, i as int) == digit_end(cs@, j as int),
        decreases cs.len() - j,
    {
        j = j + 1;
    }
    j
}

fn value_end_at(cs: &Vec<char>, i: usize) -> (r: usize)
    requires
        i <= cs@.len(),
    ensures
        r == value_end(cs@, i as int),
        i <= r <= cs@.len(),
{
    let mut j = i;
    while j < cs.len() && cs[j] != '<'
        invariant
            i <= j <= cs@.len(),
            value_end(cs@, i as int) == value_end(cs@, j as int),
        decreases cs.len() - j,
    {
        j = j + 1;
    }
    j
}

fn trim_end_at(cs: &Vec<char>, a: usize, b: usize) -> (r: usize)
    requires
        a <= b <= cs@.len(),
    ensures
        r == trim_end(cs@, a as int, b as int),
        a <= r <= b,
{
    let mut j = b;
    while j > a && is_whitespace(cs[j - 1])
        invariant
            a <= j <= b <= cs@.len(),
            trim_end(cs@, a as int, b as int) == trim_end(cs@, a as int, j as int),
        decreases j,
    {
        j = j - 1;
    }
    j
}

/// The number that the digits `cs[a..b]` spell, or `usize::MAX` where it is larger.
fn digits_at(cs: &Vec<char>, a: usize, b: usize) -> (r: usize)
    requires
        a <= b <= cs@.len(),
        forall|k: int| a <= k < b ==> is_digit(#[trigger] cs@[k]),
    ensures
        r == saturate(digits_val(cs@.subrange(a as int, b as int))),
{
    let mut acc: usize = 0;
    let mut j = a;
    while j < b
        invariant
            a <= j <= b <= cs@.len(),
            forall|k: int| a <= k < b ==> is_digit(#[trigger] cs@[k]),
            acc == saturate(digits_val(cs@.subrange(a as int, j as int))),
        decreases b - j,
    {
        let d = digit_of(cs[j]) as usize;
        let ghost prev = digits_val(cs@.subrange(a as int, j as int));
        assert(cs@.subrange(a as int, j + 1).drop_last() =~= cs@.subrange(a as int, j as int));
        assert(digits_val(cs@.subrange(a as int, j + 1)) == prev * 10 + d);
        if acc == usize::MAX {
            assert(prev >= usize::MAX);
            assert(prev * 10 + d >= usize::MAX) by (nonlinear_arith)
                requires prev >= usize::MAX;
        } else if acc > (usize::MAX - d) / 10 {
            assert(prev == acc);
            assert(prev * 10 + d > usize::MAX) by (nonlinear_arith)
                requires prev > (usize::MAX - d) / 10, d < 10;
            acc = usize::MAX;
        } else {
            assert(prev * 10 + d <= usize::MAX) by (nonlinear_arith)
                requires prev <= (usize::MAX - d) / 10, d < 10;
            acc = acc * 10 + d;
        }
        j = j + 1;
    }
    acc
}


fn tag_head_at(cs: &Vec<char>, i: usize) -> (r: Option<(usize, usize, Option<char>, usize)>)
    requires
        i < cs@.len(),
    ensures
        match r {
            Some((ke, de, ty, vs)) => tag_head(cs@, i as int) == Some(
                (ke as int, de as int, ty, vs as int),
            ) && i < ke < de < vs <= cs@.len(),
            None => tag_head(cs@, i as int) is None,
        },
{
    let n = cs.len();
    if cs[i] != '<' {
        return None;
    }
    let ke = key_end_at(cs, i + 1);
    if ke == i + 1 || ke >= cs.len() || cs[ke] != ':' {
        return None;
    }
    let de = digit_end_at(cs, ke + 1);
    if de == ke + 1 || de >= cs.len() {
        return None;
    }
    if cs[de] == '>' {
        Some((ke, de, None, de + 1))
    } else if cs[de] == ':' && cs.len() - de > 2 && (('a' <= cs[de + 1] && cs[de + 1] <= 'z') || (
    'A' <= cs[de + 1] && cs[de + 1] <= 'Z')) && cs[de + 2] == '>' {
        Some((ke, de, Some(cs[de + 1]), de + 3))
    } else {
        None
    }
}

pub(crate) proof fn lemma_digit_run(s: Seq<char>, i: int)
    requires
        0 <= i <= s.len(),
    ensures
        i <= digit_end(s, i) <= s.len(),
        forall|k: int| i <= k < digit_end(s, i) ==> is_digit(#[trigger] s[k]),
    decreases s.len() - i,
{
    if i < s.len() && is_digit(s[i]) {
        lemma_digit_run(s, i + 1);
    }
}

/// A run of key characters from `i` up to a non-key character at `j` ends at `j`.
pub(crate) proof fn lemma_key_end_is(s: Seq<char>, i: int, j: int)
    requires
        0 <= i <= j < s.len(),
        forall|q: int| i <= q < j ==> is_key_char(#[trigger] s[q]),
        !is_key_char(s[j]),
    ensures
        key_end(s, i) == j,
    decreases j - i,
{
    if i < j {
        lemma_key_end_is(s, i + 1, j);
    }
}

/// A run of digits from `i` up to a non-digit or the end at `j` ends at `j`.
pub(crate) proof fn lemma_digit_end_is(s: Seq<char>, i: int, j: int)
    requires
        0 <= i <= j <= s.len(),
        forall|q: int| i <= q < j ==> is_digit(#[trigger] s[q]),
        j == s.len() || !is_digit(s[j]),
    ensures
        digit_end(s, i) == j,
    decreases j - i,
{
    if i < j {
        lemma_digit_end_is(s, i + 1, j);
    }
}

/// The text `cs[a..b]` with `a`..`z` made upper case.
fn upper_range(cs: &Vec<char>, a: usize, b: usize) -> (r: String)
    requires
        a <= b <= cs@.len(),
    ensures
        r@ == ascii_upper_text(cs@.subrange(a as int, b as int)),
{
    let mut out = String::new();
    let mut j = a;
    while j < b
        invariant
            a <= j <= b <= cs@.len(),
            out@ == ascii_upper_text(cs@.subrange(a as int, j as int)),
        decreases b - j,
    {
        push_char(&mut out, upper_char(cs[j]));
        j = j + 1;
        assert(out@ =~= ascii_upper_text(cs@.subrange(a as int, j as int)));
    }
    out
}

/// The tokens of a text, left to right.
pub fn parse_line_to_tokens(line: &str) -> (r: Vec<Token>)
    ensures
        token_views(r@) == tokens_of(line@),
{
    let cs = chars_of(line);
    let mut out: Vec<Token> = Vec::new();
    let mut i: usize = 0;
    while i < cs.len()
        invariant
            cs@ == line@,
            i <= cs@.len(),
            tokens_of(line@) == token_views(out@) + tokens_from(line@, i as int),
        decreases cs.len() - i,
    {
        match tag_head_at(&cs, i) {
            None => {
                i = i + 1;
            },
            Some((ke, de, ty, vs)) => {
                let ve = value_end_at(&cs, vs);
                let te = trim_end_at(&cs, vs, ve);
                proof {
                    lemma_digit_run(cs@, ke + 1);
                }
                let key = upper_range(&cs, i + 1, ke);
                let len = digits_at(&cs, ke + 1, de);
                let mut value = String::new();
                push_range(&mut value, &cs, vs, te);
                let t = Token {
                    key,
                    len,
                    ty: match ty {
                        Some(c) => Some(upper_char(c)),
                        None => None,
                    },
                    value,
                };
                let ghost h = (ke as int, de as int, ty, vs as int);
                assert(t@ == token_at(line@, i as int, h)) by {
                    assert(value@ =~= line@.subrange(vs as int, te as int));
                }
                let ghost before = token_views(out@);
                out.push(t);
                assert(token_views(out@) =~= before + seq![t@]);
                i = ve;
            },
        }
    }
    assert(token_views(out@) + tokens_from(line@, i as int) =~= token_views(out@));
    out
}

} // verus!
