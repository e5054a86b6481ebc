//! Records, headers and files: ordered fields whose keys are unique up to case.
use vstd::prelude::*;
use indexmap::IndexMap;
use crate::text::{push_char, push_str, to_upper, upper_text};
use crate::value::{AdifType, Date, ErrorView, SerializeError, Time, Value, date_display, tag_result};
use crate::value::{date_to_text, push_time_display, time_display};

verus! {

#[verifier::external_type_specification]
#[verifier::external_body]
#[verifier::reject_recursive_types(K)]
#[verifier::reject_recursive_types(V)]
#[verifier::reject_recursive_types(S)]
pub struct ExIndexMap<K, V, S>(IndexMap<K, V, S>);

/// The entries of an index map, in their order, as keys and value views.
pub uninterp spec fn map_entries(m: IndexMap<String, AdifType>) -> Seq<(Seq<char>, Value)>;

/// Relies on IndexMap::new: a map with no entry.
#[verifier::external_body]
pub(crate) fn map_new() -> (r: IndexMap<String, AdifType>)
    ensures
        map_entries(r) == Seq::<(Seq<char>, Value)>::empty(),
{
    IndexMap::new()
}

/// Relies on IndexMap::len: the number of entries.
#[verifier::external_body]
fn map_len(m: &IndexMap<String, AdifType>) -> (r: usize)
    ensures
        r == map_entries(*m).len(),
{
    m.len()
}

/// Relies on IndexMap::get_index: the entry at a position, in insertion order.
#[verifier::external_body]
fn map_get_index(m: &IndexMap<String, AdifType>, i: usize) -> (r: (&String, &AdifType))
    requires
        i < map_entries(*m).len(),
    ensures
        (r.0@, r.1@) == map_entries(*m)[i as int],
{
    m.get_index(i).unwrap()
}

/// Relies on IndexMap's `IndexMut<usize>`: the value at a position is replaced
/// and its key and place stay.
#[verifier::external_body]
fn map_set_value(m: &mut IndexMap<String, AdifType>, i: usize, v: AdifType)
    requires
        i < map_entries(*old(m)).len(),
    ensures
        map_entries(*final(m)) == map_entries(*old(m)).update(
            i as int,
            (map_entries(*old(m))[i as int].0, v@),
        ),
{
    m[i] = v;
}

/// Relies on IndexMap::insert: a key that is not in the map goes at the end.
#[verifier::external_body]
fn map_push(m: &mut IndexMap<String, AdifType>, k: String, v: AdifType)
    requires
        forall|j: int| 0 <= j < map_entries(*old(m)).len() ==> map_entries(*old(m))[j].0 != k@,
    ensures
        map_entries(*final(m)) == map_entries(*old(m)).push((k@, v@)),
{
    m.insert(k, v);
}

/// No two keys are equal once put in upper case.
pub open spec fn unique_keys(e: Seq<(Seq<char>, Value)>) -> bool {
    forall|i: int, j: int|
        0 <= i < j < e.len() ==> upper_text(#[trigger] e[i].0) != upper_text(#[trigger] e[j].0)
}

/// The position of the first entry whose key equals `k` up to case.
pub open spec fn key_position(e: Seq<(Seq<char>, Value)>, k: Seq<char>) -> Option<int> {
    if exists|i: int| 0 <= i < e.len() && upper_text(e[i].0) == upper_text(k) {
        Some(choose|i: int| 0 <= i < e.len() && upper_text(e[i].0) == upper_text(k)
            && forall|j: int| 0 <= j < i ==> upper_text(e[j].0) != upper_text(k))
    } else {
        None
    }
}

/// The entries after `k` is set to `v`: the value of the entry whose key
/// equals `k` up to case is replaced, in its place and under its old key;
/// otherwise the entry goes at the end.
pub open spec fn entries_insert(e: Seq<(Seq<char>, Value)>, k: Seq<char>, v: Value) -> Seq<
    (Seq<char>, Value),
> {
    match key_position(e, k) {
        Some(i) => e.update(i, (e[i].0, v)),
        None => e.push((k, v)),
    }
}

/// The first position of an entry whose key equals `key` up to case.
fn find_key(m: &IndexMap<String, AdifType>, key: &str) -> (r: Option<usize>)
    ensures
        match r {
            Some(i) => key_position(map_entries(*m), key@) == Some(i as int) && i < map_entries(
                *m,
            ).len(),
            None => key_position(map_entries(*m), key@) is None,
        },
{
    let ghost e = map_entries(*m);
    let up = to_upper(key);
    let n = map_len(m);
    let mut i: usize = 0;
    while i < n
        invariant
            n == e.len(),
            e == map_entries(*m),
            up@ == upper_text(key@),
            i <= n,
            forall|j: int| 0 <= j < i ==> upper_text(e[j].0) != upper_text(key@),
        decreases n - i,
    {
        let (k, _) = map_get_index(m, i);
        let ku = to_upper(k.as_str());
        if ku == up {
            proof {
                let p = choose|p: int| 0 <= p < e.len() && upper_text(e[p].0) == upper_text(key@)
                    && forall|j: int| 0 <= j < p ==> upper_text(e[j].0) != upper_text(key@);
                assert(0 <= i < e.len() && upper_text(e[i as int].0) == upper_text(key@) && forall|
                    j: int,
                | 0 <= j < i ==> upper_text(e[j].0) != upper_text(key@));
                if p < i {
                } else if p > i {
                }
            }
            return Some(i);
        }
        i = i + 1;
    }
    None
}

/// Sets the field `key` to `v` in place, or adds it at the end.
pub(crate) fn insert_entry(m: &mut IndexMap<String, AdifType>, key: String, v: AdifType)
    requires
        unique_keys(map_entries(*old(m))),
    ensures
        map_entries(*final(m)) == entries_insert(map_entries(*old(m)), key@, v@),
        unique_keys(map_entries(*final(m))),
{
    let ghost e = map_entries(*m);
    match find_key(m, key.as_str()) {
        Some(i) => {
            map_set_value(m, i, v);
            assert(unique_keys(map_entries(*m))) by {
                assert forall|a: int, b: int| 0 <= a < b < map_entries(*m).len() implies upper_text(
                    #[trigger] map_entries(*m)[a].0,
                ) != upper_text(#[trigger] map_entries(*m)[b].0) by {
                    assert(map_entries(*m)[a].0 == e[a].0);
                    assert(map_entries(*m)[b].0 == e[b].0);
                }
            }
        },
        None => {
            map_push(m, key, v);
            assert(unique_keys(map_entries(*m))) by {
                assert forall|a: int, b: int| 0 <= a < b < map_entries(*m).len() implies upper_text(
                    #[trigger] map_entries(*m)[a].0,
                ) != upper_text(#[trigger] map_entries(*m)[b].0) by {
                    if b == e.len() {
                        assert(upper_text(e[a].0) != upper_text(key@));
                    } else {
                        assert(map_entries(*m)[a] == e[a]);
                        assert(map_entries(*m)[b] == e[b]);
                    }
                }
            }
        },
    }
}


/// The tags of the fields joined by `sep`, or the error of the first field
/// that cannot be written.
pub open spec fn tags_result(e: Seq<(Seq<char>, Value)>, sep: Seq<char>) -> Result<
    Seq<char>,
    ErrorView,
>
    decreases e.len(),
{
    if e.len() == 0 {
        Ok(Seq::empty())
    } else {
        match tags_result(e.drop_last(), sep) {
            Err(x) => Err(x),
            Ok(t) => match tag_result(e.last()) {
                Err(x) => Err(x),
                Ok(g) => Ok(
                    if e.len() == 1 {
                        g
                    } else {
                        t + sep + g
                    },
                ),
            },
        }
    }
}

/// Writes the tags of all entries joined by `sep`.
fn serialize_entries(m: &IndexMap<String, AdifType>, sep: &str) -> (r: Result<
    String,
    SerializeError,
>)
    ensures
        match r {
            Ok(t) => tags_result(map_entries(*m), sep@) == Ok::<Seq<char>, ErrorView>(t@),
            Err(x) => tags_result(map_entries(*m), sep@) == Err::<Seq<char>, ErrorView>(x@),
        },
{
    let ghost e = map_entries(*m);
    let n = map_len(m);
    let mut out = String::new();
    let mut i: usize = 0;
    while i < n
        invariant
            n == e.len(),
            e == map_entries(*m),
            i <= n,
            tags_result(e.take(i as int), sep@) == Ok::<Seq<char>, ErrorView>(out@),
        decreases n - i,
    {
        let (k, v) = map_get_index(m, i);
        assert(e.take(i + 1).drop_last() =~= e.take(i as int));
        assert(e.take(i + 1).last() == e[i as int]);
        match v.serialize(k.as_str()) {
            Err(x) => {
                proof {
                    lemma_tags_err_extends(e, sep@, i as int + 1, x@);
                }
                return Err(x);
            },
            Ok(g) => {
                if i > 0 {
                    push_str(&mut out, sep);
                }
                push_str(&mut out, g.as_str());
            },
        }
        i = i + 1;
    }
    assert(e.take(n as int) =~= e);
    Ok(out)
}

/// An error in a prefix of the entries is the error of all of them.
proof fn lemma_tags_err_extends(e: Seq<(Seq<char>, Value)>, sep: Seq<char>, i: int, x: ErrorView)
    requires
        0 <= i <= e.len(),
        tags_result(e.take(i), sep) == Err::<Seq<char>, ErrorView>(x),
    ensures
        tags_result(e, sep) == Err::<Seq<char>, ErrorView>(x),
    decreases e.len() - i,
{
    if i < e.len() {
        assert(e.take(i + 1).drop_last() =~= e.take(i));
        lemma_tags_err_extends(e, sep, i + 1, x);
    } else {
        assert(e.take(i) =~= e);
    }
}

/// A record as it is written: its tags one after another, then `<eor>`.
pub open spec fn record_result(e: Seq<(Seq<char>, Value)>) -> Result<Seq<char>, ErrorView> {
    match tags_result(e, Seq::empty()) {
        Ok(t) => Ok(t + seq!['<', 'e', 'o', 'r', '>']),
        Err(x) => Err(x),
    }
}

/// `YYYY-MM-DD HH:MM:SS`.
pub open spec fn stamp_text(d: Date, t: Time) -> Seq<char> {
    date_display(d) + seq![' '] + time_display(t)
}

/// A header as it is written: a line that says when it was made, an empty
/// line, its tags one per line, then `<EOH>`.
pub open spec fn header_result(e: Seq<(Seq<char>, Value)>, d: Date, t: Time) -> Result<
    Seq<char>,
    ErrorView,
> {
    match tags_result(e, seq!['\n']) {
        Ok(g) => Ok(
            seq!['G', 'e', 'n', 'e', 'r', 'a', 't', 'e', 'd', ' '] + stamp_text(d, t) + seq![
                ' ',
                '(',
                'U',
                'T',
                'C',
                ')',
                '\n',
                '\n',
            ] + g + seq!['\n', '<', 'E', 'O', 'H', '>'],
        ),
        Err(x) => Err(x),
    }
}

/// A single record: fields in order, keys unique up to case.
#[derive(Debug)]
pub struct AdifRecord {
    map: IndexMap<String, AdifType>,
}

/// The header of a file: fields in order, keys unique up to case.
#[derive(Debug)]
pub struct AdifHeader {
    map: IndexMap<String, AdifType>,
}

impl View for AdifRecord {
    type V = Seq<(Seq<char>, Value)>;

    closed spec fn view(&self) -> Seq<(Seq<char>, Value)> {
        map_entries(self.map)
    }
}

impl View for AdifHeader {
    type V = Seq<(Seq<char>, Value)>;

    closed spec fn view(&self) -> Seq<(Seq<char>, Value)> {
        map_entries(self.map)
    }
}

impl AdifRecord {
    /// A record with the entries of `map`.
    pub(crate) fn from_map(map: IndexMap<String, AdifType>) -> (r: AdifRecord)
        ensures
            r@ == map_entries(map),
    {
        AdifRecord { map }
    }

    pub open spec fn wf(&self) -> bool {
        unique_keys(self@)
    }

    /// A record with no field.
    pub fn new() -> (r: AdifRecord)
        ensures
            r@ == Seq::<(Seq<char>, Value)>::empty(),
            r.wf(),
    {
        AdifRecord { map: map_new() }
    }

    /// Sets the field `key` to `value`: the value of a field whose key equals
    /// `key` up to case is replaced in its place, else the field is added at the end.
    pub fn insert(&mut self, key: String, value: AdifType)
        requires
            old(self).wf(),
        ensures
            final(self)@ == entries_insert(old(self)@, key@, value@),
            final(self).wf(),
    {
        insert_entry(&mut self.map, key, value);
    }

    /// The number of fields.
    pub fn len(&self) -> (r: usize)
        ensures
            r == self@.len(),
    {
        map_len(&self.map)
    }

    /// The field at position `i`.
    pub fn get_index(&self, i: usize) -> (r: Option<(&String, &AdifType)>)
        ensures
            match r {
                Some(p) => i < self@.len() && (p.0@, p.1@) == self@[i as int],
                None => i >= self@.len(),
            },
    {
        if i < map_len(&self.map) {
            Some(map_get_index(&self.map, i))
        } else {
            None
        }
    }

    /// The value of the field whose key equals `key` up to case.
    pub fn get(&self, key: &str) -> (r: Option<&AdifType>)
        ensures
            match key_position(self@, key@) {
                Some(i) => r matches Some(v) && v@ == self@[i].1,
                None => r is None,
            },
    {
        match find_key(&self.map, key) {
            Some(i) => Some(map_get_index(&self.map, i).1),
            None => None,
        }
    }

    /// The record as text: each field's tag in order, then `<eor>`.
    pub fn serialize(&self) -> (r: Result<String, SerializeError>)
        ensures
            match r {
                Ok(t) => record_result(self@) == Ok::<Seq<char>, ErrorView>(t@),
                Err(x) => record_result(self@) == Err::<Seq<char>, ErrorView>(x@),
            },
    {
        let sep = String::new();
        match serialize_entries(&self.map, sep.as_str()) {
            Err(x) => Err(x),
            Ok(mut out) => {
                push_str(&mut out, "<eor>");
                proof {
                    reveal_strlit("<eor>");
                }
                assert(out@ =~= record_result(self@)->Ok_0);
                Ok(out)
            },
        }
    }
}

impl AdifHeader {
    /// A header with the entries of `map`.
    pub(crate) fn from_map(map: IndexMap<String, AdifType>) -> (r: AdifHeader)
        ensures
            r@ == map_entries(map),
    {
        AdifHeader { map }
    }

    pub open spec fn wf(&self) -> bool {
        unique_keys(self@)
    }

    /// A header with no field.
    pub fn new() -> (r: AdifHeader)
        ensures
            r@ == Seq::<(Seq<char>, Value)>::empty(),
            r.wf(),
    {
        AdifHeader { map: map_new() }
    }

    /// Sets the field `key` to `value`: the value of a field whose key equals
    /// `key` up to case is replaced in its place, else the field is added at the end.
    pub fn insert(&mut self, key: String, value: AdifType)
        requires
            old(self).wf(),
        ensures
            final(self)@ == entries_insert(old(self)@, key@, value@),
            final(self).wf(),
    {
        insert_entry(&mut self.map, key, value);
    }

    /// The number of fields.
    pub fn len(&self) -> (r: usize)
        ensures
            r == self@.len(),
    {
        map_len(&self.map)
    }

    /// The field at position `i`.
    pub fn get_index(&self, i: usize) -> (r: Option<(&String, &AdifType)>)
        ensures
            match r {
                Some(p) => i < self@.len() && (p.0@, p.1@) == self@[i as int],
                None => i >= self@.len(),
            },
    {
        if i < map_len(&self.map) {
            Some(map_get_index(&self.map, i))
        } else {
            None
        }
    }

    /// The value of the field whose key equals `key` up to case.
    pub fn get(&self, key: &str) -> (r: Option<&AdifType>)
        ensures
            match key_position(self@, key@) {
                Some(i) => r matches Some(v) && v@ == self@[i].1,
                None => r is None,
            },
    {
        match find_key(&self.map, key) {
            Some(i) => Some(map_get_index(&self.map, i).1),
            None => None,
        }
    }

    /// The header as text: a line that says when it was made (`generated`,
    /// in UTC), an empty line, one tag per line, then `<EOH>`.
    pub fn serialize(&self, generated_date: Date, generated_time: Time) -> (r: Result<
        String,
        SerializeError,
    >)
        ensures
            match r {
                Ok(t) => header_result(self@, generated_date, generated_time) == Ok::<
                    Seq<char>,
                    ErrorView,
                >(t@),
                Err(x) => header_result(self@, generated_date, generated_time) == Err::<
                    Seq<char>,
                    ErrorView,
                >(x@),
            },
    {
        let mut sep = String::new();
        push_char(&mut sep, '\n');
        match serialize_entries(&self.map, sep.as_str()) {
            Err(x) => Err(x),
            Ok(tags) => {
                let mut out = String::new();
                push_str(&mut out, "Generated ");
                let d = date_to_text(generated_date);
                push_str(&mut out, d.as_str());
                push_char(&mut out, ' ');
                push_time_display(&mut out, generated_time);
                push_str(&mut out, " (UTC)\n\n");
                push_str(&mut out, tags.as_str());
                push_str(&mut out, "\n<EOH>");
                proof {
                    reveal_strlit("Generated ");
                    reveal_strlit(" (UTC)\n\n");
                    reveal_strlit("\n<EOH>");
                }
                assert(out@ =~= header_result(self@, generated_date, generated_time)->Ok_0);
                Ok(out)
            },
        }
    }
}

/// The records as text, one per line, or the error of the first that cannot
/// be written.
pub open spec fn records_result(rs: Seq<Seq<(Seq<char>, Value)>>) -> Result<Seq<char>, ErrorView>
    decreases rs.len(),
{
    if rs.len() == 0 {
        Ok(Seq::empty())
    } else {
        match records_result(rs.drop_last()) {
            Err(x) => Err(x),
            Ok(t) => match record_result(rs.last()) {
                Err(x) => Err(x),
                Ok(g) => Ok(
                    if rs.len() == 1 {
                        g
                    } else {
                        t + seq!['\n'] + g
                    },
                ),
            },
        }
    }
}

/// A file as it is written: its header, a line break, then its records one per line.
pub open spec fn file_result(
    h: Seq<(Seq<char>, Value)>,
    rs: Seq<Seq<(Seq<char>, Value)>>,
    d: Date,
    t: Time,
) -> Result<Seq<char>, ErrorView> {
    match header_result(h, d, t) {
        Err(x) => Err(x),
        Ok(ht) => match records_result(rs) {
            Err(x) => Err(x),
            Ok(rt) => Ok(ht + seq!['\n'] + rt),
        },
    }
}

/// A whole file: one header and the records that follow it.
#[derive(Debug)]
pub struct AdifFile {
    pub header: AdifHeader,
    pub body: Vec<AdifRecord>,
}

pub open spec fn record_views(rs: Seq<AdifRecord>) -> Seq<Seq<(Seq<char>, Value)>> {
    rs.map_values(|r: AdifRecord| r@)
}

/// An error in some of the records is the error of all of them.
proof fn lemma_records_err_extends(rs: Seq<Seq<(Seq<char>, Value)>>, i: int, x: ErrorView)
    requires
        0 <= i <= rs.len(),
        records_result(rs.take(i)) == Err::<Seq<char>, ErrorView>(x),
    ensures
        records_result(rs) == Err::<Seq<char>, ErrorView>(x),
    decreases rs.len() - i,
{
    if i < rs.len() {
        assert(rs.take(i + 1).drop_last() =~= rs.take(i));
        lemma_records_err_extends(rs, i + 1, x);
    } else {
        assert(rs.take(i) =~= rs);
    }
}

impl AdifFile {
    /// The file as text: the header (stamped with `generated`), a line
    /// break, then each record on a line of its own.
    pub fn serialize(&self, generated_date: Date, generated_time: Time) -> (r: Result<
        String,
        SerializeError,
    >)
        ensures
            match r {
                Ok(t) => file_result(
                    self.header@,
                    record_views(self.body@),
                    generated_date,
                    generated_time,
                ) == Ok::<Seq<char>, ErrorView>(t@),
                Err(x) => file_result(
                    self.header@,
                    record_views(self.body@),
                    generated_date,
                    generated_time,
                ) == Err::<Seq<char>, ErrorView>(x@),
            },
    {
        let mut out = match self.header.serialize(generated_date, generated_time) {
            Err(x) => {
                return Err(x);
            },
            Ok(h) => h,
        };
        let ghost ht = out@;
        push_char(&mut out, '\n');
        let ghost start = out@;
        let ghost rs = record_views(self.body@);
        let mut i: usize = 0;
        while i < self.body.len()
            invariant
                rs == record_views(self.body@),
                i <= self.body@.len(),
                header_result(self.header@, generated_date, generated_time) == Ok::<
                    Seq<char>,
                    ErrorView,
                >(ht),
                start == ht + seq!['\n'],
                records_result(rs.take(i as int)) matches Ok(t) && out@ == start + t,
            decreases self.body.len() - i,
        {
            assert(rs.take(i + 1).drop_last() =~= rs.take(i as int));
            assert(rs.take(i + 1).last() == self.body@[i as int]@);
            match self.body[i].serialize() {
                Err(x) => {
                    proof {
                        lemma_records_err_extends(rs, i + 1, x@);
                    }
                    return Err(x);
                },
                Ok(g) => {
                    if i > 0 {
                        push_char(&mut out, '\n');
                    }
                    push_str(&mut out, g.as_str());
                },
            }
            i = i + 1;
            assert(records_result(rs.take(i as int)) matches Ok(t) && out@ =~= start + t);
        }
        assert(rs.take(i as int) =~= rs);
        assert(out@ =~= ht + seq!['\n'] + records_result(rs)->Ok_0);
        Ok(out)
    }
}

} // verus!
