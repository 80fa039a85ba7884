//! What the generated message table does not carry and the DBC text does:
//! the node list, the sender of each message and the value descriptions of
//! signals (`BU_`, `BO_`, `VAL_TABLE_` and `VAL_` lines).
use vstd::prelude::*;

use std::collections::BTreeMap;

use crate::exports::texts;
use crate::text::{
    chars_of, has_prefix, is_digit, is_space, is_whitespace, parse_i64_at, parse_u32_at,
    spec_parse_i64, spec_parse_u32, starts_with_at, string_of, sub_chars, trim, trim_bounds,
};

verus! {

/// Why the DBC text could not be read.
#[derive(Clone, Copy, Debug, PartialEq, Eq, Structural)]
pub enum DbcError {
    /// A message id or a described value is not a number of its type.
    InvalidNumber,
    /// A value label has no closing quote.
    UnterminatedLabel,
    /// A `BO_` line without message id and name.
    MalformedMessage,
    /// An `SG_` line that does not read as a signal, or one before any
    /// message.
    MalformedSignal,
}

/// The first position from `i` on that is not white space (the length of
/// `s` if there is none).
pub open spec fn skip_spaces(s: Seq<char>, i: int) -> int
    decreases s.len() - i,
{
    if 0 <= i < s.len() && is_space(s[i]) {
        skip_spaces(s, i + 1)
    } else {
        i
    }
}

/// The first position from `i` on that is not a decimal digit.
pub open spec fn skip_digits(s: Seq<char>, i: int) -> int
    decreases s.len() - i,
{
    if 0 <= i < s.len() && is_digit(s[i]) {
        skip_digits(s, i + 1)
    } else {
        i
    }
}

/// The first position from `i` on that holds `c`.
pub open spec fn find_char(s: Seq<char>, i: int, c: char) -> int
    decreases s.len() - i,
{
    if 0 <= i < s.len() && s[i] != c {
        find_char(s, i + 1, c)
    } else {
        i
    }
}

/// The end of the number that starts at `i`: a digit or `-`, then digits.
pub open spec fn number_end(s: Seq<char>, i: int) -> int {
    if 0 <= i < s.len() && (is_digit(s[i]) || s[i] == '-') {
        skip_digits(s, i + 1)
    } else {
        i
    }
}

pub proof fn lemma_skip_spaces(s: Seq<char>, i: int)
    requires
        0 <= i <= s.len(),
    ensures
        i <= skip_spaces(s, i) <= s.len(),
        skip_spaces(s, i) < s.len() ==> !is_space(s[skip_spaces(s, i)]),
        forall|k: int| i <= k < skip_spaces(s, i) ==> is_space(#[trigger] s[k]),
    decreases s.len() - i,
{
    if i < s.len() && is_space(s[i]) {
        lemma_skip_spaces(s, i + 1);
    }
}

pub proof fn lemma_skip_digits(s: Seq<char>, i: int)
    requires
        0 <= i <= s.len(),
    ensures
        i <= skip_digits(s, i) <= s.len(),
        skip_digits(s, i) < s.len() ==> !is_digit(s[skip_digits(s, i)]),
        forall|k: int| i <= k < skip_digits(s, i) ==> is_digit(#[trigger] s[k]),
    decreases s.len() - i,
{
    if i < s.len() && is_digit(s[i]) {
        lemma_skip_digits(s, i + 1);
    }
}

pub proof fn lemma_find_char(s: Seq<char>, i: int, c: char)
    requires
        0 <= i <= s.len(),
    ensures
        i <= find_char(s, i, c) <= s.len(),
        find_char(s, i, c) < s.len() ==> s[find_char(s, i, c)] == c,
        forall|k: int| i <= k < find_char(s, i, c) ==> #[trigger] s[k] != c,
    decreases s.len() - i,
{
    if i < s.len() && s[i] != c {
        lemma_find_char(s, i + 1, c);
    }
}

/// The `(value, label)` pairs of a value description from position `i` on:
/// a number, then a label in double quotes, repeated; a `;`, the end of the
/// text or anything else ends the list.
pub open spec fn value_pairs_from(s: Seq<char>, i: int) -> Result<Seq<(i64, Seq<char>)>, DbcError>
    decreases s.len() - i,
{
    let j = skip_spaces(s, i);
    let k = number_end(s, j);
    if j >= s.len() || j < 0 || s[j] == ';' || k == j {
        Ok(Seq::empty())
    } else {
        match spec_parse_i64(s.subrange(j, k)) {
            None => Err(DbcError::InvalidNumber),
            Some(v) => {
                let q = skip_spaces(s, k);
                if q >= s.len() || s[q] != '"' {
                    Ok(Seq::empty())
                } else {
                    let e = find_char(s, q + 1, '"');
                    if e >= s.len() {
                        Err(DbcError::UnterminatedLabel)
                    } else {
                        proof {
                            if i < 0 {
                                assert(skip_spaces(s, i) == i);
                            }
                            if 0 <= i <= s.len() {
                                lemma_skip_spaces(s, i);
                                lemma_skip_digits(s, j + 1);
                                lemma_skip_spaces(s, k);
                                lemma_find_char(s, q + 1, '"');
                            }
                        }
                        match value_pairs_from(s, e + 1) {
                            Ok(rest) => Ok(seq![(v, s.subrange(q + 1, e))] + rest),
                            Err(err) => Err(err),
                        }
                    }
                }
            },
        }
    }
}

/// The pairs of a value description.
pub open spec fn value_pairs(s: Seq<char>) -> Result<Seq<(i64, Seq<char>)>, DbcError> {
    value_pairs_from(trim(s), 0)
}

/// The map that the pairs give, a later pair replacing an earlier one with
/// the same value.
pub open spec fn pairs_map(pairs: Seq<(i64, Seq<char>)>) -> Map<i64, Seq<char>>
    decreases pairs.len(),
{
    if pairs.len() == 0 {
        Map::empty()
    } else {
        pairs_map(pairs.drop_last()).insert(pairs.last().0, pairs.last().1)
    }
}

/// A map by the text of its values.
pub open spec fn text_map<K>(m: Map<K, String>) -> Map<K, Seq<char>> {
    m.map_values(|v: String| v@)
}

/// What a value description gives: the map of its pairs, or the error.
pub open spec fn described_values(result: Result<Seq<(i64, Seq<char>)>, DbcError>, got: Result<BTreeMap<i64, String>, DbcError>) -> bool {
    match result {
        Ok(pairs) => got matches Ok(m) && text_map(m@) == pairs_map(pairs),
        Err(e) => got == Err::<BTreeMap<i64, String>, DbcError>(e),
    }
}

pub(crate) fn skip_spaces_at(chars: &Vec<char>, from: usize) -> (end: usize)
    requires
        from <= chars@.len(),
    ensures
        end == skip_spaces(chars@, from as int),
        from <= end <= chars@.len(),
{
    proof {
        lemma_skip_spaces(chars@, from as int);
    }
    let mut i = from;
    while i < chars.len() && is_whitespace(chars[i])
        invariant
            from <= i <= chars@.len(),
            skip_spaces(chars@, i as int) == skip_spaces(chars@, from as int),
        decreases chars.len() - i,
    {
        i = i + 1;
    }
    i
}

fn skip_digits_at(chars: &Vec<char>, from: usize) -> (end: usize)
    requires
        from <= chars@.len(),
    ensures
        end == skip_digits(chars@, from as int),
        from <= end <= chars@.len(),
{
    proof {
        lemma_skip_digits(chars@, from as int);
    }
    let mut i = from;
    while i < chars.len() && '0' <= chars[i] && chars[i] <= '9'
        invariant
            from <= i <= chars@.len(),
            skip_digits(chars@, i as int) == skip_digits(chars@, from as int),
        decreases chars.len() - i,
    {
        i = i + 1;
    }
    i
}

pub(crate) fn find_char_at(chars: &Vec<char>, from: usize, c: char) -> (end: usize)
    requires
        from <= chars@.len(),
    ensures
        end == find_char(chars@, from as int, c),
        from <= end <= chars@.len(),
{
    proof {
        lemma_find_char(chars@, from as int, c);
    }
    let mut i = from;
    while i < chars.len() && chars[i] != c
        invariant
            from <= i <= chars@.len(),
            find_char(chars@, i as int, c) == find_char(chars@, from as int, c),
        decreases chars.len() - i,
    {
        i = i + 1;
    }
    i
}

/// `done` followed by what `rest` gives, or the error of `rest`.
pub open spec fn after_pairs(done: Seq<(i64, Seq<char>)>, rest: Result<Seq<(i64, Seq<char>)>, DbcError>) -> Result<Seq<(i64, Seq<char>)>, DbcError> {
    match rest {
        Ok(r) => Ok(done + r),
        Err(e) => Err(e),
    }
}

fn insert_label(map: &mut BTreeMap<i64, String>, value: i64, label: String)
    ensures
        final(map)@ == old(map)@.insert(value, label),
{
    broadcast use vstd::laws_cmp::group_laws_cmp;

    map.insert(value, label);
}

/// The value description in `chars`, read from the start.
fn pairs_of(chars: &Vec<char>) -> (result: Result<BTreeMap<i64, String>, DbcError>)
    ensures
        described_values(value_pairs_from(chars@, 0), result),
{
    let ghost s = chars@;
    let mut map: BTreeMap<i64, String> = BTreeMap::new();
    let mut pos: usize = 0;
    let ghost mut done: Seq<(i64, Seq<char>)> = Seq::empty();
    assert(text_map(map@) =~= pairs_map(done));
    assert(done + Seq::<(i64, Seq<char>)>::empty() =~= Seq::<(i64, Seq<char>)>::empty());
    loop
        invariant
            s == chars@,
            pos <= s.len(),
            text_map(map@) == pairs_map(done),
            value_pairs_from(s, 0) == after_pairs(done, value_pairs_from(s, pos as int)),
        decreases s.len() - pos,
    {
        let j = skip_spaces_at(chars, pos);
        let k = if j < chars.len() && (('0' <= chars[j] && chars[j] <= '9') || chars[j] == '-') {
            skip_digits_at(chars, j + 1)
        } else {
            j
        };
        if j >= chars.len() || chars[j] == ';' || k == j {
            assert(done + Seq::<(i64, Seq<char>)>::empty() =~= done);
            return Ok(map);
        }
        let v = match parse_i64_at(chars, j, k) {
            Some(v) => v,
            None => return Err(DbcError::InvalidNumber),
        };
        let q = skip_spaces_at(chars, k);
        if q >= chars.len() || chars[q] != '"' {
            assert(done + Seq::<(i64, Seq<char>)>::empty() =~= done);
            return Ok(map);
        }
        let e = find_char_at(chars, q + 1, '"');
        if e >= chars.len() {
            return Err(DbcError::UnterminatedLabel);
        }
        let label = string_of(chars, q + 1, e);
        let ghost pair = (v, label@);
        proof {
            lemma_skip_spaces(s, pos as int);
            lemma_skip_spaces(s, k as int);
            lemma_find_char(s, q + 1, '"');
            let rest = value_pairs_from(s, e + 1);
            assert(value_pairs_from(s, pos as int) == after_pairs(seq![pair], rest));
            match rest {
                Ok(r) => {
                    assert(done + (seq![pair] + r) =~= done.push(pair) + r);
                },
                Err(_) => {},
            }
        }
        let ghost before = map@;
        insert_label(&mut map, v, label);
        proof {
            let grown = done.push(pair);
            assert(grown.drop_last() == done);
            assert(text_map(map@) =~= text_map(before).insert(v, pair.1));
            done = grown;
        }
        pos = e + 1;
    }
}

/// The values that a value description lists, with their labels: a number,
/// then a label in double quotes, repeated until a `;`, the end or anything
/// else. A number that is not an `i64` and a label without its closing quote
/// are errors; a later label for the same value replaces an earlier one.
pub fn parse_value_pairs(input: &str) -> (result: Result<BTreeMap<i64, String>, DbcError>)
    ensures
        described_values(value_pairs(input@), result),
{
    let chars = chars_of(input);
    let (start, end) = trim_bounds(&chars, 0, chars.len());
    assert(chars@.subrange(0, chars@.len() as int) == chars@);
    let body = sub_chars(&chars, start, end);
    pairs_of(&body)
}

/// The first position from `i` on that is white space (the length of `s`
/// if there is none).
pub open spec fn skip_word(s: Seq<char>, i: int) -> int
    decreases s.len() - i,
{
    if 0 <= i < s.len() && !is_space(s[i]) {
        skip_word(s, i + 1)
    } else {
        i
    }
}

pub proof fn lemma_skip_word(s: Seq<char>, i: int)
    requires
        0 <= i <= s.len(),
    ensures
        i <= skip_word(s, i) <= s.len(),
        skip_word(s, i) < s.len() ==> is_space(s[skip_word(s, i)]),
        forall|k: int| i <= k < skip_word(s, i) ==> !is_space(#[trigger] s[k]),
    decreases s.len() - i,
{
    if i < s.len() && !is_space(s[i]) {
        lemma_skip_word(s, i + 1);
    }
}

/// The white-space separated words of `s` from position `i` on
/// (`split_whitespace`).
pub open spec fn words_from(s: Seq<char>, i: int) -> Seq<Seq<char>>
    decreases s.len() - i,
{
    let j = skip_spaces(s, i);
    if j < 0 || j >= s.len() {
        Seq::empty()
    } else {
        let k = skip_word(s, j);
        proof {
            if i < 0 {
                assert(skip_spaces(s, i) == i);
            }
            if 0 <= i <= s.len() {
                lemma_skip_spaces(s, i);
                lemma_skip_word(s, j);
            }
        }
        if k <= i {
            Seq::empty()
        } else {
            seq![s.subrange(j, k)] + words_from(s, k)
        }
    }
}

pub(crate) fn skip_word_at(chars: &Vec<char>, from: usize) -> (end: usize)
    requires
        from <= chars@.len(),
    ensures
        end == skip_word(chars@, from as int),
        from <= end <= chars@.len(),
{
    proof {
        lemma_skip_word(chars@, from as int);
    }
    let mut i = from;
    while i < chars.len() && !is_whitespace(chars[i])
        invariant
            from <= i <= chars@.len(),
            skip_word(chars@, i as int) == skip_word(chars@, from as int),
        decreases chars.len() - i,
    {
        i = i + 1;
    }
    i
}

/// The white-space separated words of `chars` from position `from` on.
pub(crate) fn words_at(chars: &Vec<char>, from: usize) -> (words: Vec<String>)
    requires
        from <= chars@.len(),
    ensures
        texts(words@) == words_from(chars@, from as int),
{
    let ghost s = chars@;
    let mut words: Vec<String> = Vec::new();
    let mut pos = from;
    loop
        invariant
            s == chars@,
            from <= pos <= s.len(),
            words_from(s, from as int) == texts(words@) + words_from(s, pos as int),
        decreases s.len() - pos,
    {
        let j = skip_spaces_at(chars, pos);
        if j >= chars.len() {
            assert(texts(words@) + Seq::<Seq<char>>::empty() =~= texts(words@));
            return words;
        }
        let k = skip_word_at(chars, j);
        proof {
            lemma_skip_spaces(s, pos as int);
            lemma_skip_word(s, j as int);
        }
        let word = string_of(chars, j, k);
        let ghost before = words@;
        words.push(word);
        proof {
            assert(texts(words@) =~= texts(before).push(word@));
            assert(words_from(s, pos as int) == seq![word@] + words_from(s, k as int));
            assert(texts(before) + (seq![word@] + words_from(s, k as int)) =~= texts(before).push(word@)
                + words_from(s, k as int));
        }
        pos = k;
    }
}

/// `s` without the `;` characters that end it.
pub open spec fn strip_semicolons(s: Seq<char>) -> Seq<char>
    decreases s.len(),
{
    if s.len() > 0 && s.last() == ';' {
        strip_semicolons(s.drop_last())
    } else {
        s
    }
}

/// The name of the value table that a value description refers to
/// (`body.trim().trim_end_matches(';').trim()`).
pub open spec fn table_name(body: Seq<char>) -> Seq<char> {
    trim(strip_semicolons(trim(body)))
}

/// The annotations read so far, by the text of their parts.
pub struct ReadingView {
    /// The nodes of the last `BU_` line.
    pub nodes: Seq<Seq<char>>,
    /// The sender of each message, by message id.
    pub senders: Map<u32, Seq<char>>,
    /// The named value tables, in the order of their lines.
    pub named: Seq<(Seq<char>, Map<i64, Seq<char>>)>,
    /// The value descriptions of signals, by message id and signal name, in
    /// the order of their lines.
    pub tables: Seq<(u32, Seq<char>, Map<i64, Seq<char>>)>,
    /// The signals whose description names a value table: message id,
    /// signal and table name.
    pub refs: Seq<(u32, Seq<char>, Seq<char>)>,
}

/// What one (trimmed) line of the DBC adds to the annotations read so far.
pub open spec fn read_line(a: ReadingView, l: Seq<char>) -> Result<ReadingView, DbcError> {
    if has_prefix(l, seq!['B', 'U', '_', ':']) {
        Ok(ReadingView { nodes: words_from(l, 4), ..a })
    } else if has_prefix(l, seq!['B', 'O', '_', ' ']) {
        let w = words_from(l, 4);
        if w.len() < 4 {
            Ok(a)
        } else {
            match spec_parse_u32(w[0]) {
                Some(id) => Ok(ReadingView { senders: a.senders.insert(id, w[3]), ..a }),
                None => Err(DbcError::InvalidNumber),
            }
        }
    } else if has_prefix(l, seq!['V', 'A', 'L', '_', 'T', 'A', 'B', 'L', 'E', '_', ' ']) {
        let p = skip_word(l, 11);
        if p >= l.len() {
            Ok(a)
        } else {
            match value_pairs(l.subrange(p + 1, l.len() as int)) {
                Ok(pairs) => Ok(ReadingView { named: a.named.push((l.subrange(11, p), pairs_map(pairs))), ..a }),
                Err(e) => Err(e),
            }
        }
    } else if has_prefix(l, seq!['V', 'A', 'L', '_', ' ']) {
        let p1 = skip_word(l, 5);
        let p2 = skip_word(l, p1 + 1);
        if p1 >= l.len() || p2 >= l.len() {
            Ok(a)
        } else {
            let signal = l.subrange(p1 + 1, p2);
            let body = l.subrange(p2 + 1, l.len() as int);
            match spec_parse_u32(l.subrange(5, p1)) {
                None => Err(DbcError::InvalidNumber),
                Some(id) => match value_pairs(body) {
                    Err(e) => Err(e),
                    Ok(pairs) => if pairs.len() == 0 {
                        if table_name(body).len() > 0 {
                            Ok(ReadingView { refs: a.refs.push((id, signal, table_name(body))), ..a })
                        } else {
                            Ok(a)
                        }
                    } else {
                        Ok(ReadingView { tables: a.tables.push((id, signal, pairs_map(pairs))), ..a })
                    },
                },
            }
        }
    } else {
        Ok(a)
    }
}

/// The annotations read from the lines of `s` that start at or after `i`
/// (lines end at `\n`; each is trimmed).
pub open spec fn read_from(a: ReadingView, s: Seq<char>, i: int) -> Result<ReadingView, DbcError>
    decreases s.len() - i,
{
    if i < 0 || i >= s.len() {
        Ok(a)
    } else {
        let e = find_char(s, i, '\n');
        match read_line(a, trim(s.subrange(i, e))) {
            Err(x) => Err(x),
            Ok(next) => if e < s.len() {
                proof {
                    lemma_find_char(s, i, '\n');
                }
                read_from(next, s, e + 1)
            } else {
                Ok(next)
            },
        }
    }
}

/// The table that the last line naming it gave, if any.
pub open spec fn named_table(named: Seq<(Seq<char>, Map<i64, Seq<char>>)>, name: Seq<char>) -> Option<Map<i64, Seq<char>>>
    decreases named.len(),
{
    if named.len() == 0 {
        None
    } else if named.last().0 == name {
        Some(named.last().1)
    } else {
        named_table(named.drop_last(), name)
    }
}

/// The descriptions that table references give, in order: those whose table
/// exists.
pub open spec fn resolved_refs(named: Seq<(Seq<char>, Map<i64, Seq<char>>)>, refs: Seq<(u32, Seq<char>, Seq<char>)>) -> Seq<(u32, Seq<char>, Map<i64, Seq<char>>)>
    decreases refs.len(),
{
    if refs.len() == 0 {
        Seq::empty()
    } else {
        let prev = resolved_refs(named, refs.drop_last());
        match named_table(named, refs.last().2) {
            Some(t) => prev.push((refs.last().0, refs.last().1, t)),
            None => prev,
        }
    }
}

/// Nothing read yet.
pub open spec fn empty_reading() -> ReadingView {
    ReadingView {
        nodes: Seq::empty(),
        senders: Map::empty(),
        named: Seq::empty(),
        tables: Seq::empty(),
        refs: Seq::empty(),
    }
}

/// The annotations of a DBC text: its nodes, the senders by message id, and
/// the value descriptions of signals (those given in place, then those that
/// name a table, in the order of their lines), or the first error.
pub open spec fn spec_annotations(raw: Seq<char>) -> Result<(Seq<Seq<char>>, Map<u32, Seq<char>>, Seq<(u32, Seq<char>, Map<i64, Seq<char>>)>), DbcError> {
    match read_from(empty_reading(), raw, 0) {
        Ok(a) => Ok((a.nodes, a.senders, a.tables + resolved_refs(a.named, a.refs))),
        Err(e) => Err(e),
    }
}

/// The labels of the values of a signal of a message.
#[derive(Debug)]
pub struct ValueTable {
    pub message_id: u32,
    pub signal: String,
    pub values: BTreeMap<i64, String>,
}

/// A value table defined by name.
struct NamedTable {
    name: String,
    values: BTreeMap<i64, String>,
}

/// A signal whose description names a value table.
struct TableRef {
    message_id: u32,
    signal: String,
    table: String,
}

/// The view of a value table.
pub open spec fn table_view(t: ValueTable) -> (u32, Seq<char>, Map<i64, Seq<char>>) {
    (t.message_id, t.signal@, text_map(t.values@))
}

/// The views of value tables.
pub open spec fn table_views(ts: Seq<ValueTable>) -> Seq<(u32, Seq<char>, Map<i64, Seq<char>>)> {
    ts.map_values(|t: ValueTable| table_view(t))
}

spec fn named_views(ts: Seq<NamedTable>) -> Seq<(Seq<char>, Map<i64, Seq<char>>)> {
    ts.map_values(|t: NamedTable| (t.name@, text_map(t.values@)))
}

spec fn ref_views(rs: Seq<TableRef>) -> Seq<(u32, Seq<char>, Seq<char>)> {
    rs.map_values(|r: TableRef| (r.message_id, r.signal@, r.table@))
}

/// What the DBC text says beyond the generated message table.
#[derive(Debug)]
pub struct DbcAnnotations {
    /// The nodes of the bus.
    pub nodes: Vec<String>,
    /// The sender of each message, by message id.
    pub senders: BTreeMap<u32, String>,
    /// The value descriptions of signals; for a message and signal, the
    /// last one counts.
    pub value_tables: Vec<ValueTable>,
}

struct Reading {
    nodes: Vec<String>,
    senders: BTreeMap<u32, String>,
    named: Vec<NamedTable>,
    tables: Vec<ValueTable>,
    refs: Vec<TableRef>,
}

spec fn reading_view(r: Reading) -> ReadingView {
    ReadingView {
        nodes: texts(r.nodes@),
        senders: text_map(r.senders@),
        named: named_views(r.named@),
        tables: table_views(r.tables@),
        refs: ref_views(r.refs@),
    }
}

fn insert_sender(senders: &mut BTreeMap<u32, String>, id: u32, sender: String)
    ensures
        final(senders)@ == old(senders)@.insert(id, sender),
{
    broadcast use vstd::laws_cmp::group_laws_cmp;

    senders.insert(id, sender);
}

fn copy_values(values: &BTreeMap<i64, String>) -> (copy: BTreeMap<i64, String>)
    ensures
        copy@ == values@,
{
    values.clone()
}

/// Reads one trimmed line into `reading`.
fn read_line_into(reading: &mut Reading, l: &Vec<char>) -> (result: Result<(), DbcError>)
    ensures
        match read_line(reading_view(*old(reading)), l@) {
            Ok(next) => result is Ok && reading_view(*final(reading)) == next,
            Err(e) => result == Err::<(), DbcError>(e),
        },
{
    let n = l.len();
    proof {
        reveal_strlit("BU_:");
        reveal_strlit("BO_ ");
        reveal_strlit("VAL_TABLE_ ");
        reveal_strlit("VAL_ ");
        assert(l@.subrange(0, n as int) == l@);
        assert("BU_:"@ =~= seq!['B', 'U', '_', ':']);
        assert("BO_ "@ =~= seq!['B', 'O', '_', ' ']);
        assert("VAL_TABLE_ "@ =~= seq!['V', 'A', 'L', '_', 'T', 'A', 'B', 'L', 'E', '_', ' ']);
        assert("VAL_ "@ =~= seq!['V', 'A', 'L', '_', ' ']);
    }
    if starts_with_at(l, 0, n, "BU_:") {
        let words = words_at(l, 4);
        reading.nodes = words;
        return Ok(());
    }
    if starts_with_at(l, 0, n, "BO_ ") {
        let words = words_at(l, 4);
        if words.len() < 4 {
            return Ok(());
        }
        let first = chars_of(words[0].as_str());
        assert(first@.subrange(0, first@.len() as int) == first@);
        let id = match parse_u32_at(&first, 0, first.len()) {
            Some(id) => id,
            None => return Err(DbcError::InvalidNumber),
        };
        let sender = words[3].clone();
        let ghost before = reading.senders@;
        insert_sender(&mut reading.senders, id, sender);
        assert(text_map(reading.senders@) =~= text_map(before).insert(id, sender@));
        return Ok(());
    }
    if starts_with_at(l, 0, n, "VAL_TABLE_ ") {
        let p = skip_word_at(l, 11);
        if p >= n {
            return Ok(());
        }
        let body = sub_chars(l, p + 1, n);
        let values = match pairs_of_text(&body) {
            Ok(values) => values,
            Err(e) => return Err(e),
        };
        let name = string_of(l, 11, p);
        let ghost before = reading.named@;
        reading.named.push(NamedTable { name, values });
        assert(named_views(reading.named@) =~= named_views(before).push((name@, text_map(values@))));
        return Ok(());
    }
    if starts_with_at(l, 0, n, "VAL_ ") {
        let p1 = skip_word_at(l, 5);
        if p1 >= n {
            return Ok(());
        }
        let p2 = skip_word_at(l, p1 + 1);
        if p2 >= n {
            return Ok(());
        }
        let id = match parse_u32_at(l, 5, p1) {
            Some(id) => id,
            None => return Err(DbcError::InvalidNumber),
        };
        let body = sub_chars(l, p2 + 1, n);
        let values = match pairs_of_text(&body) {
            Ok(values) => values,
            Err(e) => return Err(e),
        };
        let signal = string_of(l, p1 + 1, p2);
        if values.is_empty() {
            let name = table_name_of(&body);
            if chars_of(name.as_str()).len() > 0 {
                let ghost before = reading.refs@;
                reading.refs.push(TableRef { message_id: id, signal, table: name });
                assert(ref_views(reading.refs@) =~= ref_views(before).push((id, signal@, name@)));
            }
        } else {
            let ghost before = reading.tables@;
            reading.tables.push(ValueTable { message_id: id, signal, values });
            assert(table_views(reading.tables@) =~= table_views(before).push((id, signal@, text_map(values@))));
        }
        return Ok(());
    }
    Ok(())
}

proof fn lemma_pairs_map_empty(pairs: Seq<(i64, Seq<char>)>, m: Map<i64, String>)
    requires
        text_map(m) == pairs_map(pairs),
    ensures
        m.dom().is_empty() <==> pairs.len() == 0,
{
    if pairs.len() > 0 {
        let k = pairs.last().0;
        assert(pairs_map(pairs).contains_key(k));
        assert(text_map(m).contains_key(k));
        assert(m.dom().contains(k));
    } else {
        assert forall|k: i64| !m.dom().contains(k) by {
            if m.dom().contains(k) {
                assert(text_map(m).contains_key(k));
            }
        }
        assert(m.dom() =~= Set::<i64>::empty());
    }
}

/// The value description in `chars`, trimmed first.
fn pairs_of_text(chars: &Vec<char>) -> (result: Result<BTreeMap<i64, String>, DbcError>)
    ensures
        described_values(value_pairs(chars@), result),
        result matches Ok(m) ==> (m@.is_empty() <==> value_pairs(chars@)->Ok_0.len() == 0),
{
    let (start, end) = trim_bounds(chars, 0, chars.len());
    assert(chars@.subrange(0, chars@.len() as int) == chars@);
    let body = sub_chars(chars, start, end);
    let result = pairs_of(&body);
    proof {
        if result is Ok {
            lemma_pairs_map_empty(value_pairs(chars@)->Ok_0, result->Ok_0@);
        }
    }
    result
}

/// The name of the value table that the description `body` refers to.
fn table_name_of(body: &Vec<char>) -> (name: String)
    ensures
        name@ == table_name(body@),
{
    let (a, b) = trim_bounds(body, 0, body.len());
    assert(body@.subrange(0, body@.len() as int) == body@);
    let ghost t = body@.subrange(a as int, b as int);
    let mut e = b;
    while e > a && body[e - 1] == ';'
        invariant
            a <= e <= b <= body@.len(),
            t == body@.subrange(a as int, b as int),
            strip_semicolons(t) == strip_semicolons(body@.subrange(a as int, e as int)),
        decreases e,
    {
        assert(body@.subrange(a as int, e as int).drop_last() == body@.subrange(a as int, e - 1));
        e = e - 1;
    }
    let (a2, b2) = trim_bounds(body, a, e);
    string_of(body, a2, b2)
}

/// Copies the table of each reference whose table exists, in order, after
/// the descriptions given in place.
fn resolve_refs(named: &Vec<NamedTable>, refs: &Vec<TableRef>, tables: &mut Vec<ValueTable>)
    ensures
        table_views(final(tables)@) == table_views(old(tables)@) + resolved_refs(named_views(named@), ref_views(refs@)),
{
    let ghost start = table_views(tables@);
    let mut i: usize = 0;
    assert(ref_views(refs@).subrange(0, 0) =~= Seq::<(u32, Seq<char>, Seq<char>)>::empty());
    assert(start + Seq::<(u32, Seq<char>, Map<i64, Seq<char>>)>::empty() =~= start);
    while i < refs.len()
        invariant
            i <= refs@.len(),
            table_views(tables@) == start + resolved_refs(named_views(named@), ref_views(refs@).subrange(0, i as int)),
        decreases refs.len() - i,
    {
        let r = &refs[i];
        let ghost prefix = ref_views(refs@).subrange(0, i + 1);
        assert(prefix.drop_last() == ref_views(refs@).subrange(0, i as int));
        assert(prefix.last() == (r.message_id, r.signal@, r.table@));
        let mut k = named.len();
        assert(named_views(named@).subrange(0, k as int) =~= named_views(named@));
        while k > 0 && !crate::text::same_text(named[k - 1].name.as_str(), r.table.as_str())
            invariant
                k <= named@.len(),
                named_table(named_views(named@), r.table@) == named_table(
                    named_views(named@).subrange(0, k as int),
                    r.table@,
                ),
            decreases k,
        {
            assert(named_views(named@).subrange(0, k as int).drop_last() == named_views(named@).subrange(
                0,
                k - 1,
            ));
            k = k - 1;
        }
        if k > 0 {
            let values = copy_values(&named[k - 1].values);
            let signal = r.signal.clone();
            let ghost before = tables@;
            tables.push(ValueTable { message_id: r.message_id, signal, values });
            assert(table_views(tables@) =~= table_views(before).push((r.message_id, r.signal@, text_map(values@))));
            assert(named_views(named@).subrange(0, k as int).last() == (named[k - 1].name@, text_map(named[k - 1].values@)));
            assert((start + resolved_refs(named_views(named@), ref_views(refs@).subrange(0, i as int))).push(
                (r.message_id, r.signal@, text_map(values@)),
            ) =~= start + resolved_refs(named_views(named@), ref_views(refs@).subrange(0, i as int)).push(
                (r.message_id, r.signal@, text_map(values@)),
            ));
        } else {
            assert(named_views(named@).subrange(0, 0) =~= Seq::<(Seq<char>, Map<i64, Seq<char>>)>::empty());
        }
        i = i + 1;
    }
    assert(ref_views(refs@).subrange(0, refs@.len() as int) =~= ref_views(refs@));
}

impl DbcAnnotations {
    /// Reads the annotations of a DBC text, line by line: `BU_:` gives the
    /// nodes, `BO_ <id> <name> <dlc> <sender>` the sender of a message,
    /// `VAL_TABLE_ <name> <pairs>` a named table and `VAL_ <id> <signal>
    /// <pairs or table name>` the value description of a signal. A message
    /// id that is not a `u32`, or a bad value description, is an error.
    pub fn parse(raw: &str) -> (result: Result<DbcAnnotations, DbcError>)
        ensures
            match spec_annotations(raw@) {
                Ok((nodes, senders, tables)) => result matches Ok(a) && texts(a.nodes@) == nodes
                    && text_map(a.senders@) == senders && table_views(a.value_tables@) == tables,
                Err(e) => result matches Err(x) && x == e,
            },
    {
        let chars = chars_of(raw);
        let ghost s = chars@;
        let mut reading = Reading {
            nodes: Vec::new(),
            senders: BTreeMap::new(),
            named: Vec::new(),
            tables: Vec::new(),
            refs: Vec::new(),
        };
        assert(reading_view(reading) =~= empty_reading()) by {
            assert(texts(reading.nodes@) =~= Seq::<Seq<char>>::empty());
            assert(text_map(reading.senders@) =~= Map::<u32, Seq<char>>::empty());
            assert(named_views(reading.named@) =~= Seq::<(Seq<char>, Map<i64, Seq<char>>)>::empty());
            assert(table_views(reading.tables@) =~= Seq::<(u32, Seq<char>, Map<i64, Seq<char>>)>::empty());
            assert(ref_views(reading.refs@) =~= Seq::<(u32, Seq<char>, Seq<char>)>::empty());
        }
        let mut pos: usize = 0;
        while pos < chars.len()
            invariant
                s == chars@,
                s == raw@,
                pos <= s.len(),
                read_from(empty_reading(), s, 0) == read_from(reading_view(reading), s, pos as int),
            decreases s.len() - pos,
        {
            let end = find_char_at(&chars, pos, '\n');
            let (a, b) = trim_bounds(&chars, pos, end);
            let line = sub_chars(&chars, a, b);
            let ghost view_before = reading_view(reading);
            assert(line@ == trim(s.subrange(pos as int, end as int)));
            match read_line_into(&mut reading, &line) {
                Ok(()) => {},
                Err(e) => {
                    assert(read_from(view_before, s, pos as int) == Err::<ReadingView, DbcError>(e));
                    return Err(e);
                },
            }
            assert(read_line(view_before, line@) == Ok::<ReadingView, DbcError>(reading_view(reading)));
            if end >= chars.len() {
                return Ok(self::finish(reading));
            }
            pos = end + 1;
        }
        Ok(self::finish(reading))
    }
}

fn finish(reading: Reading) -> (annotations: DbcAnnotations)
    ensures
        texts(annotations.nodes@) == reading_view(reading).nodes,
        text_map(annotations.senders@) == reading_view(reading).senders,
        table_views(annotations.value_tables@) == reading_view(reading).tables + resolved_refs(
            reading_view(reading).named,
            reading_view(reading).refs,
        ),
{
    let Reading { nodes, senders, named, tables, refs } = reading;
    let mut tables = tables;
    resolve_refs(&named, &refs, &mut tables);
    DbcAnnotations { nodes, senders, value_tables: tables }
}

} // verus!
