//! Export files: the values of SDO variables saved by board, variable and
//! type, and what restoring such a file does.
use vstd::multiset::Multiset;
use vstd::prelude::*;

use crate::app::CachedValue;
use crate::dbc::{Database, FloatBits, SdoBoardDef, SdoVariableDef, Value, ValueKind, ValueStorage};
use crate::sdo::LookupError;
use crate::text::{push_str, same_text};
use crate::text::{compare_text, decimal, lemma_text_lt_asymmetric, lemma_text_lt_irreflexive, lemma_text_lt_total, lemma_text_lt_transitive, push_char, push_decimal, text_lt, TextOrder};

verus! {

/// A value as an export file stores it.
#[derive(Clone, Copy, Debug, PartialEq, Eq, Structural)]
pub enum ExportValue {
    Unsigned { value: u64 },
    Signed { value: i64 },
    Float { value: FloatBits },
}

/// One saved variable.
#[derive(Clone, Debug)]
pub struct ExportEntry {
    pub board: String,
    pub variable: String,
    pub type_tag: String,
    pub var_id: u16,
    pub unit: Option<String>,
    pub value: ExportValue,
}

/// The text content of an export entry.
pub struct EntryView {
    pub board: Seq<char>,
    pub variable: Seq<char>,
    pub type_tag: Seq<char>,
    pub var_id: u16,
    pub unit: Option<Seq<char>>,
    pub value: ExportValue,
}

/// The text of an optional string.
pub open spec fn opt_text(s: Option<String>) -> Option<Seq<char>> {
    match s {
        Some(t) => Some(t@),
        None => None,
    }
}

impl View for ExportEntry {
    type V = EntryView;

    open spec fn view(&self) -> EntryView {
        EntryView {
            board: self.board@,
            variable: self.variable@,
            type_tag: self.type_tag@,
            var_id: self.var_id,
            unit: opt_text(self.unit),
            value: self.value,
        }
    }
}

/// An export file.
#[derive(Clone, Debug)]
pub struct ExportFile {
    pub version: u32,
    pub entries: Vec<ExportEntry>,
}

/// What a restore did.
#[derive(Clone, Debug)]
pub struct ImportReport {
    pub applied: usize,
    pub missing: Vec<String>,
    pub type_mismatches: Vec<String>,
}

/// The letter that names a kind in a type tag.
pub open spec fn kind_letter(kind: ValueKind) -> char {
    match kind {
        ValueKind::Unsigned => 'u',
        ValueKind::Signed => 'i',
        ValueKind::Float => 'f',
    }
}

/// The type tag of a storage: its kind's letter, then its width in decimal
/// (`u8`, `i16`, `f32`, ...).
pub open spec fn spec_storage_tag(storage: ValueStorage) -> Seq<char> {
    seq![kind_letter(storage.kind)] + decimal(storage.bits as nat)
}

/// The type tag of a storage.
pub fn storage_tag(storage: ValueStorage) -> (tag: String)
    ensures
        tag@ == spec_storage_tag(storage),
{
    let mut tag = String::new();
    let letter = match storage.kind {
        ValueKind::Unsigned => 'u',
        ValueKind::Signed => 'i',
        ValueKind::Float => 'f',
    };
    push_char(&mut tag, letter);
    push_decimal(&mut tag, storage.bits as u64);
    tag
}

/// The stored form of a value.
pub open spec fn spec_value_to_export(value: Value) -> ExportValue {
    match value {
        Value::Unsigned(v) => ExportValue::Unsigned { value: v },
        Value::Signed(v) => ExportValue::Signed { value: v },
        Value::Float(v) => ExportValue::Float { value: v },
    }
}

/// The value a stored form stands for.
pub open spec fn spec_export_to_value(value: ExportValue) -> Value {
    match value {
        ExportValue::Unsigned { value } => Value::Unsigned(value),
        ExportValue::Signed { value } => Value::Signed(value),
        ExportValue::Float { value } => Value::Float(value),
    }
}

/// The stored form of a value.
pub fn value_to_export(value: Value) -> (stored: ExportValue)
    ensures
        stored == spec_value_to_export(value),
{
    match value {
        Value::Unsigned(value) => ExportValue::Unsigned { value },
        Value::Signed(value) => ExportValue::Signed { value },
        Value::Float(value) => ExportValue::Float { value },
    }
}

/// The value a stored form stands for.
pub fn export_to_value(value: ExportValue) -> (restored: Value)
    ensures
        restored == spec_export_to_value(value),
{
    match value {
        ExportValue::Unsigned { value } => Value::Unsigned(value),
        ExportValue::Signed { value } => Value::Signed(value),
        ExportValue::Float { value } => Value::Float(value),
    }
}

/// Saving a value and restoring it gives the value back, and every stored
/// form is the stored form of the value it restores to.
pub proof fn law_export_value_roundtrip(value: Value, stored: ExportValue)
    ensures
        spec_export_to_value(spec_value_to_export(value)) == value,
        spec_value_to_export(spec_export_to_value(stored)) == stored,
{
}

/// The order of export entries: by board, then variable, then type tag.
pub open spec fn entry_lt(a: EntryView, b: EntryView) -> bool {
    ||| text_lt(a.board, b.board)
    ||| a.board == b.board && text_lt(a.variable, b.variable)
    ||| a.board == b.board && a.variable == b.variable && text_lt(a.type_tag, b.type_tag)
}

/// Entries in the order of their keys (entries with equal keys in any order).
pub open spec fn entries_sorted(entries: Seq<EntryView>) -> bool {
    forall|i: int, j: int| 0 <= i < j < entries.len() ==> !entry_lt(entries[j], entries[i])
}

/// Sorted export entries come by board name, then variable name, then type
/// tag, each in text order: a later entry never has a smaller key than an
/// earlier one, and of two entries of the same board the one whose variable
/// name comes first comes first, whatever their type tags.
pub proof fn law_export_order(entries: Seq<EntryView>)
    requires
        entries_sorted(entries),
    ensures
        forall|i: int, j: int|
            #![trigger entries[i], entries[j]]
            0 <= i < j < entries.len() ==> {
                &&& !text_lt(entries[j].board, entries[i].board)
                &&& entries[i].board == entries[j].board ==> !text_lt(entries[j].variable, entries[i].variable)
                &&& entries[i].board == entries[j].board && entries[i].variable == entries[j].variable
                    ==> !text_lt(entries[j].type_tag, entries[i].type_tag)
            },
        forall|i: int, j: int|
            #![trigger entries[i], entries[j]]
            0 <= i < entries.len() && 0 <= j < entries.len() && text_lt(entries[i].board, entries[j].board)
                ==> i < j,
        forall|i: int, j: int|
            #![trigger entries[i], entries[j]]
            0 <= i < entries.len() && 0 <= j < entries.len() && entries[i].board == entries[j].board
                && text_lt(entries[i].variable, entries[j].variable) ==> i < j,
{
    assert forall|i: int, j: int|
        #![trigger entries[i], entries[j]]
        0 <= i < j < entries.len() implies {
            &&& !text_lt(entries[j].board, entries[i].board)
            &&& entries[i].board == entries[j].board ==> !text_lt(entries[j].variable, entries[i].variable)
            &&& entries[i].board == entries[j].board && entries[i].variable == entries[j].variable
                ==> !text_lt(entries[j].type_tag, entries[i].type_tag)
        } by {
        assert(!entry_lt(entries[j], entries[i]));
    }
    assert forall|i: int, j: int|
        #![trigger entries[i], entries[j]]
        0 <= i < entries.len() && 0 <= j < entries.len() && text_lt(entries[i].board, entries[j].board)
            implies i < j by {
        lemma_text_lt_irreflexive(entries[i].board);
        if j < i {
            assert(!entry_lt(entries[i], entries[j]));
        }
    }
    assert forall|i: int, j: int|
        #![trigger entries[i], entries[j]]
        0 <= i < entries.len() && 0 <= j < entries.len() && entries[i].board == entries[j].board
            && text_lt(entries[i].variable, entries[j].variable) implies i < j by {
        lemma_text_lt_irreflexive(entries[i].variable);
        if j < i {
            assert(!entry_lt(entries[i], entries[j]));
        }
    }
}

proof fn lemma_entry_lt_transitive(a: EntryView, b: EntryView, c: EntryView)
    requires
        entry_lt(a, b),
        entry_lt(b, c),
    ensures
        entry_lt(a, c),
{
    if text_lt(a.board, b.board) && text_lt(b.board, c.board) {
        lemma_text_lt_transitive(a.board, b.board, c.board);
    }
    if a.board == b.board && b.board == c.board {
        if text_lt(a.variable, b.variable) && text_lt(b.variable, c.variable) {
            lemma_text_lt_transitive(a.variable, b.variable, c.variable);
        }
        if a.variable == b.variable && b.variable == c.variable && text_lt(a.type_tag, b.type_tag)
            && text_lt(b.type_tag, c.type_tag) {
            lemma_text_lt_transitive(a.type_tag, b.type_tag, c.type_tag);
        }
    }
}

proof fn lemma_entry_lt_asymmetric(a: EntryView, b: EntryView)
    requires
        entry_lt(a, b),
    ensures
        !entry_lt(b, a),
{
    lemma_text_lt_irreflexive(a.board);
    lemma_text_lt_irreflexive(a.variable);
    lemma_text_lt_irreflexive(a.type_tag);
    if text_lt(a.board, b.board) {
        lemma_text_lt_asymmetric(a.board, b.board);
    }
    if text_lt(a.variable, b.variable) {
        lemma_text_lt_asymmetric(a.variable, b.variable);
    }
    if text_lt(a.type_tag, b.type_tag) {
        lemma_text_lt_asymmetric(a.type_tag, b.type_tag);
    }
}

/// Whether `a` comes strictly before `b` in the order of export entries.
pub fn entry_before(a: &ExportEntry, b: &ExportEntry) -> (before: bool)
    ensures
        before == entry_lt(a@, b@),
{
    match compare_text(a.board.as_str(), b.board.as_str()) {
        TextOrder::Less => true,
        TextOrder::Greater => {
            proof {
                lemma_text_lt_asymmetric(b.board@, a.board@);
            }
            false
        },
        TextOrder::Equal => match compare_text(a.variable.as_str(), b.variable.as_str()) {
            TextOrder::Less => true,
            TextOrder::Greater => {
                proof {
                    lemma_text_lt_irreflexive(a.board@);
                    lemma_text_lt_asymmetric(b.variable@, a.variable@);
                }
                false
            },
            TextOrder::Equal => {
                proof {
                    lemma_text_lt_irreflexive(a.board@);
                    lemma_text_lt_irreflexive(a.variable@);
                }
                match compare_text(a.type_tag.as_str(), b.type_tag.as_str()) {
                    TextOrder::Less => true,
                    _ => false,
                }
            },
        },
    }
}

/// A copy of an optional string.
pub fn clone_opt_string(s: &Option<String>) -> (copy: Option<String>)
    ensures
        opt_text(copy) == opt_text(*s),
{
    match s {
        Some(t) => Some(t.clone()),
        None => None,
    }
}

/// A copy of an entry.
pub fn clone_entry(entry: &ExportEntry) -> (copy: ExportEntry)
    ensures
        copy@ == entry@,
{
    ExportEntry {
        board: entry.board.clone(),
        variable: entry.variable.clone(),
        type_tag: entry.type_tag.clone(),
        var_id: entry.var_id,
        unit: clone_opt_string(&entry.unit),
        value: entry.value,
    }
}

/// The views of a sequence of entries.
pub open spec fn entry_views(entries: Seq<ExportEntry>) -> Seq<EntryView> {
    entries.map_values(|e: ExportEntry| e@)
}

/// The entries, ordered by board, variable and type tag (a stable sort).
pub fn sort_entries(entries: &Vec<ExportEntry>) -> (sorted: Vec<ExportEntry>)
    ensures
        entries_sorted(entry_views(sorted@)),
        entry_views(sorted@).to_multiset() == entry_views(entries@).to_multiset(),
{
    broadcast use vstd::seq_lib::group_to_multiset_ensures;

    let mut out: Vec<ExportEntry> = Vec::new();
    let mut i: usize = 0;
    while i < entries.len()
        invariant
            i <= entries@.len(),
            entries_sorted(entry_views(out@)),
            entry_views(out@).to_multiset() == entry_views(entries@.subrange(0, i as int)).to_multiset(),
        decreases entries.len() - i,
    {
        let x = clone_entry(&entries[i]);
        let mut pos: usize = 0;
        while pos < out.len() && !entry_before(&x, &out[pos])
            invariant
                pos <= out@.len(),
                forall|j: int| 0 <= j < pos ==> !entry_lt(x@, #[trigger] out@[j]@),
            decreases out.len() - pos,
        {
            pos = pos + 1;
        }
        let ghost before = out@;
        out.insert(pos, x);
        proof {
            let vb = entry_views(before);
            let va = entry_views(out@);
            assert(va == vb.insert(pos as int, x@));
            vstd::seq_lib::to_multiset_insert(vb, pos as int, x@);
            vstd::seq_lib::to_multiset_build(entry_views(entries@.subrange(0, i as int)), entries@[i as int]@);
            assert(entry_views(entries@.subrange(0, i + 1)) == entry_views(
                entries@.subrange(0, i as int),
            ).push(entries@[i as int]@));
            assert forall|a: int, b: int| 0 <= a < b < va.len() implies !entry_lt(va[b], va[a]) by {
                if a < pos && b == pos {
                } else if a == pos && b > pos {
                    if entry_lt(va[b], x@) {
                        assert(entry_lt(x@, vb[pos as int]));
                        lemma_entry_lt_transitive(va[b], x@, vb[pos as int]);
                        assert(va[b] == vb[b - 1]);
                        if b - 1 > pos {
                            assert(!entry_lt(vb[b - 1], vb[pos as int]));
                        } else {
                            lemma_entry_lt_asymmetric(x@, vb[pos as int]);
                        }
                    }
                } else if a < pos && b > pos {
                    assert(va[a] == vb[a]);
                    assert(va[b] == vb[b - 1]);
                } else if b < pos {
                } else {
                    assert(va[a] == vb[a - 1]);
                    assert(va[b] == vb[b - 1]);
                }
            }
        }
        i = i + 1;
    }
    assert(entries@.subrange(0, entries@.len() as int) == entries@);
    out
}

/// The text of an optional board filter.
pub open spec fn filter_text(filter: Option<&str>) -> Option<Seq<char>> {
    match filter {
        Some(f) => Some(f@),
        None => None,
    }
}

/// Whether a board passes a filter: every board passes no filter, and only
/// the boards of that name pass a name.
pub open spec fn board_selected(board: SdoBoardDef, filter: Option<Seq<char>>) -> bool {
    match filter {
        Some(name) => board.name@ == name,
        None => true,
    }
}

/// The positions of the boards that pass `filter`, in order.
pub open spec fn spec_filtered_boards(boards: Seq<SdoBoardDef>, filter: Option<Seq<char>>) -> Seq<int>
    decreases boards.len(),
{
    if boards.len() == 0 {
        Seq::empty()
    } else {
        let prev = spec_filtered_boards(boards.drop_last(), filter);
        if board_selected(boards.last(), filter) {
            prev.push(boards.len() - 1)
        } else {
            prev
        }
    }
}

/// The positions of the boards that pass `board_filter`; a filter that no
/// board passes is an error.
pub fn filtered_boards(database: &Database, board_filter: Option<&str>) -> (result: Result<Vec<usize>, LookupError>)
    ensures
        ({
            let selected = spec_filtered_boards(database.sdo_boards@, filter_text(board_filter));
            match result {
                Ok(positions) => positions@.map_values(|p: usize| p as int) == selected && !(
                board_filter is Some && selected.len() == 0),
                Err(e) => e == LookupError::BoardNotFound && board_filter is Some && selected.len()
                    == 0,
            }
        }),
{
    let boards = &database.sdo_boards;
    let mut positions: Vec<usize> = Vec::new();
    let mut i: usize = 0;
    while i < boards.len()
        invariant
            boards@ == database.sdo_boards@,
            i <= boards@.len(),
            positions@.map_values(|p: usize| p as int) == spec_filtered_boards(
                boards@.subrange(0, i as int),
                filter_text(board_filter),
            ),
        decreases boards.len() - i,
    {
        let selected = match board_filter {
            Some(name) => same_text(boards[i].name.as_str(), name),
            None => true,
        };
        let ghost prefix = boards@.subrange(0, i + 1);
        assert(prefix.drop_last() == boards@.subrange(0, i as int));
        assert(prefix.last() == boards@[i as int]);
        if selected {
            positions.push(i);
            assert(positions@.map_values(|p: usize| p as int) == spec_filtered_boards(
                boards@.subrange(0, i as int),
                filter_text(board_filter),
            ).push(i as int));
        }
        i = i + 1;
    }
    assert(boards@.subrange(0, boards@.len() as int) == boards@);
    if board_filter.is_some() && positions.len() == 0 {
        return Err(LookupError::BoardNotFound);
    }
    Ok(positions)
}

/// The entry that saves `value` for `variable` of `board`.
pub open spec fn spec_export_entry(board: SdoBoardDef, variable: SdoVariableDef, value: Value) -> EntryView {
    EntryView {
        board: board.name@,
        variable: variable.name@,
        type_tag: spec_storage_tag(variable.storage),
        var_id: variable.id,
        unit: opt_text(variable.unit),
        value: spec_value_to_export(value),
    }
}

/// The entry that saves `value` for `variable` of `board`.
pub fn export_entry(board: &SdoBoardDef, variable: &SdoVariableDef, value: Value) -> (entry: ExportEntry)
    ensures
        entry@ == spec_export_entry(*board, *variable, value),
{
    ExportEntry {
        board: board.name.clone(),
        variable: variable.name.clone(),
        type_tag: storage_tag(variable.storage),
        var_id: variable.id,
        unit: clone_opt_string(&variable.unit),
        value: value_to_export(value),
    }
}

/// The export file of the given entries: version 1, entries in key order.
pub fn finish_export(entries: &Vec<ExportEntry>) -> (file: ExportFile)
    ensures
        file.version == 1,
        entries_sorted(entry_views(file.entries@)),
        entry_views(file.entries@).to_multiset() == entry_views(entries@).to_multiset(),
{
    ExportFile { version: 1, entries: sort_entries(entries) }
}

/// The position of the first board called `name`, if any.
pub open spec fn first_board_index(boards: Seq<SdoBoardDef>, name: Seq<char>) -> Option<int>
    decreases boards.len(),
{
    if boards.len() == 0 {
        None
    } else {
        match first_board_index(boards.drop_last(), name) {
            Some(i) => Some(i),
            None => if boards.last().name@ == name {
                Some(boards.len() - 1)
            } else {
                None
            },
        }
    }
}

/// The position of the first variable whose id is `id`, if any.
pub open spec fn first_variable_index(variables: Seq<SdoVariableDef>, id: u16) -> Option<int>
    decreases variables.len(),
{
    if variables.len() == 0 {
        None
    } else {
        match first_variable_index(variables.drop_last(), id) {
            Some(i) => Some(i),
            None => if variables.last().id == id {
                Some(variables.len() - 1)
            } else {
                None
            },
        }
    }
}

/// The entry for a cached value, when its board and variable are known.
pub open spec fn cached_entry(boards: Seq<SdoBoardDef>, cached: CachedValue) -> Option<EntryView> {
    match first_board_index(boards, cached.board@) {
        Some(b) => match first_variable_index(boards[b].variables@, cached.var_id) {
            Some(v) => Some(spec_export_entry(boards[b], boards[b].variables@[v], cached.value)),
            None => None,
        },
        None => None,
    }
}

/// The entries for the cached values whose board and variable are known, in
/// the order of the cache.
pub open spec fn cached_entries(boards: Seq<SdoBoardDef>, cache: Seq<CachedValue>) -> Seq<EntryView>
    decreases cache.len(),
{
    if cache.len() == 0 {
        Seq::empty()
    } else {
        let prev = cached_entries(boards, cache.drop_last());
        match cached_entry(boards, cache.last()) {
            Some(e) => prev.push(e),
            None => prev,
        }
    }
}

proof fn lemma_first_board_index_step(boards: Seq<SdoBoardDef>, name: Seq<char>, i: int)
    requires
        0 <= i < boards.len(),
        forall|j: int| 0 <= j < i ==> #[trigger] boards[j].name@ != name,
    ensures
        first_board_index(boards.subrange(0, i), name) is None,
        first_board_index(boards.subrange(0, i + 1), name) == if boards[i].name@ == name {
            Some(i)
        } else {
            None::<int>
        },
    decreases i,
{
    if i > 0 {
        lemma_first_board_index_step(boards, name, i - 1);
        assert(boards.subrange(0, i).drop_last() == boards.subrange(0, i - 1));
    }
    assert(boards.subrange(0, i + 1).drop_last() == boards.subrange(0, i));
}

proof fn lemma_first_board_index_prefix(boards: Seq<SdoBoardDef>, name: Seq<char>, i: int)
    requires
        0 <= i <= boards.len(),
        first_board_index(boards.subrange(0, i), name) is Some,
    ensures
        first_board_index(boards, name) == first_board_index(boards.subrange(0, i), name),
    decreases boards.len() - i,
{
    if i < boards.len() {
        assert(boards.subrange(0, i + 1).drop_last() == boards.subrange(0, i));
        lemma_first_board_index_prefix(boards, name, i + 1);
    } else {
        assert(boards.subrange(0, i) == boards);
    }
}

proof fn lemma_first_board_index_none(boards: Seq<SdoBoardDef>, name: Seq<char>)
    requires
        forall|j: int| 0 <= j < boards.len() ==> #[trigger] boards[j].name@ != name,
    ensures
        first_board_index(boards, name) is None,
    decreases boards.len(),
{
    if boards.len() > 0 {
        lemma_first_board_index_none(boards.drop_last(), name);
    }
}

/// Finds the first board called `name`.
pub fn find_board(boards: &Vec<SdoBoardDef>, name: &str) -> (found: Option<usize>)
    ensures
        match found {
            Some(i) => i < boards@.len() && first_board_index(boards@, name@) == Some(i as int),
            None => first_board_index(boards@, name@) is None,
        },
{
    let mut i: usize = 0;
    while i < boards.len()
        invariant
            i <= boards@.len(),
            forall|j: int| 0 <= j < i ==> #[trigger] boards@[j].name@ != name@,
        decreases boards.len() - i,
    {
        if same_text(boards[i].name.as_str(), name) {
            proof {
                lemma_first_board_index_step(boards@, name@, i as int);
                lemma_first_board_index_prefix(boards@, name@, i + 1);
            }
            return Some(i);
        }
        i = i + 1;
    }
    proof {
        lemma_first_board_index_none(boards@, name@);
    }
    None
}

proof fn lemma_first_variable_index_step(variables: Seq<SdoVariableDef>, id: u16, i: int)
    requires
        0 <= i < variables.len(),
        forall|j: int| 0 <= j < i ==> #[trigger] variables[j].id != id,
    ensures
        first_variable_index(variables.subrange(0, i), id) is None,
        first_variable_index(variables.subrange(0, i + 1), id) == if variables[i].id == id {
            Some(i)
        } else {
            None::<int>
        },
    decreases i,
{
    if i > 0 {
        lemma_first_variable_index_step(variables, id, i - 1);
        assert(variables.subrange(0, i).drop_last() == variables.subrange(0, i - 1));
    }
    assert(variables.subrange(0, i + 1).drop_last() == variables.subrange(0, i));
}

proof fn lemma_first_variable_index_prefix(variables: Seq<SdoVariableDef>, id: u16, i: int)
    requires
        0 <= i <= variables.len(),
        first_variable_index(variables.subrange(0, i), id) is Some,
    ensures
        first_variable_index(variables, id) == first_variable_index(variables.subrange(0, i), id),
    decreases variables.len() - i,
{
    if i < variables.len() {
        assert(variables.subrange(0, i + 1).drop_last() == variables.subrange(0, i));
        lemma_first_variable_index_prefix(variables, id, i + 1);
    } else {
        assert(variables.subrange(0, i) == variables);
    }
}

proof fn lemma_first_variable_index_none(variables: Seq<SdoVariableDef>, id: u16)
    requires
        forall|j: int| 0 <= j < variables.len() ==> #[trigger] variables[j].id != id,
    ensures
        first_variable_index(variables, id) is None,
    decreases variables.len(),
{
    if variables.len() > 0 {
        lemma_first_variable_index_none(variables.drop_last(), id);
    }
}

/// Finds the first variable whose id is `id`.
pub fn find_variable(variables: &Vec<SdoVariableDef>, id: u16) -> (found: Option<usize>)
    ensures
        match found {
            Some(i) => i < variables@.len() && first_variable_index(variables@, id) == Some(i as int)
                && variables@[i as int].id == id,
            None => first_variable_index(variables@, id) is None,
        },
{
    let mut i: usize = 0;
    while i < variables.len()
        invariant
            i <= variables@.len(),
            forall|j: int| 0 <= j < i ==> #[trigger] variables@[j].id != id,
        decreases variables.len() - i,
    {
        if variables[i].id == id {
            proof {
                lemma_first_variable_index_step(variables@, id, i as int);
                lemma_first_variable_index_prefix(variables@, id, i + 1);
            }
            return Some(i);
        }
        i = i + 1;
    }
    proof {
        lemma_first_variable_index_none(variables@, id);
    }
    None
}

/// The export file of the cached values whose board (by name) and variable
/// (by id) the database knows, in key order whatever the order of the cache.
pub fn export_from_cached_values(database: &Database, values: &Vec<CachedValue>) -> (file: ExportFile)
    ensures
        file.version == 1,
        entries_sorted(entry_views(file.entries@)),
        entry_views(file.entries@).to_multiset() == cached_entries(database.sdo_boards@, values@).to_multiset(),
{
    let boards = &database.sdo_boards;
    let mut entries: Vec<ExportEntry> = Vec::new();
    let mut i: usize = 0;
    while i < values.len()
        invariant
            boards@ == database.sdo_boards@,
            i <= values@.len(),
            entry_views(entries@) == cached_entries(boards@, values@.subrange(0, i as int)),
        decreases values.len() - i,
    {
        let cached = &values[i];
        let ghost prefix = values@.subrange(0, i + 1);
        assert(prefix.drop_last() == values@.subrange(0, i as int));
        assert(prefix.last() == values@[i as int]);
        if let Some(b) = find_board(boards, cached.board.as_str()) {
            let board = &boards[b];
            if let Some(v) = find_variable(&board.variables, cached.var_id) {
                let entry = export_entry(board, &board.variables[v], cached.value);
                entries.push(entry);
                assert(entry_views(entries@) == cached_entries(boards@, values@.subrange(0, i as int)).push(entry@));
            }
        }
        i = i + 1;
    }
    assert(values@.subrange(0, values@.len() as int) == values@);
    finish_export(&entries)
}

/// The variables a restore may write, as (board, variable) positions: those
/// of the selected boards, board by board, each board's in order.
pub open spec fn spec_candidates(boards: Seq<SdoBoardDef>, selected: Seq<int>) -> Seq<(int, int)>
    decreases selected.len(),
{
    if selected.len() == 0 {
        Seq::empty()
    } else {
        let b = selected.last();
        spec_candidates(boards, selected.drop_last()) + Seq::new(
            boards[b].variables@.len(),
            |v: int| (b, v),
        )
    }
}

/// The type tag of the variable at `c`.
pub open spec fn candidate_tag(boards: Seq<SdoBoardDef>, c: (int, int)) -> Seq<char> {
    spec_storage_tag(boards[c.0].variables@[c.1].storage)
}

/// The variable at `c` has the entry's board and variable names.
pub open spec fn name_matches(boards: Seq<SdoBoardDef>, c: (int, int), e: EntryView) -> bool {
    &&& boards[c.0].name@ == e.board
    &&& boards[c.0].variables@[c.1].name@ == e.variable
}

/// The variable at `c` has the entry's board, variable and type tag.
pub open spec fn key_matches(boards: Seq<SdoBoardDef>, c: (int, int), e: EntryView) -> bool {
    name_matches(boards, c, e) && candidate_tag(boards, c) == e.type_tag
}

/// The last candidate with the entry's key.
pub open spec fn last_exact(boards: Seq<SdoBoardDef>, cands: Seq<(int, int)>, e: EntryView) -> Option<(int, int)>
    decreases cands.len(),
{
    if cands.len() == 0 {
        None
    } else if key_matches(boards, cands.last(), e) {
        Some(cands.last())
    } else {
        last_exact(boards, cands.drop_last(), e)
    }
}

/// The type tags of the candidates with the entry's names, in order.
pub open spec fn name_tags(boards: Seq<SdoBoardDef>, cands: Seq<(int, int)>, e: EntryView) -> Seq<Seq<char>>
    decreases cands.len(),
{
    if cands.len() == 0 {
        Seq::empty()
    } else {
        let prev = name_tags(boards, cands.drop_last(), e);
        if name_matches(boards, cands.last(), e) {
            prev.push(candidate_tag(boards, cands.last()))
        } else {
            prev
        }
    }
}

/// The texts joined by `sep`.
pub open spec fn join(parts: Seq<Seq<char>>, sep: char) -> Seq<char>
    decreases parts.len(),
{
    if parts.len() == 0 {
        Seq::empty()
    } else if parts.len() == 1 {
        parts[0]
    } else {
        join(parts.drop_last(), sep).push(sep) + parts.last()
    }
}

/// What restoring one entry does.
pub enum ImportOutcome {
    /// The entry is for a board the filter leaves out.
    Skip,
    /// The entry's value is written to the variable at these positions.
    Write(int, int, Value),
    /// A variable has the entry's names but another type: the report line.
    Mismatch(Seq<char>),
    /// No variable has the entry's names: the report line.
    Missing(Seq<char>),
}

/// `board.variable export=TYPE dbc=TAGS`, the report of a type mismatch.
pub open spec fn mismatch_text(e: EntryView, tags: Seq<Seq<char>>) -> Seq<char> {
    e.board + seq!['.'] + e.variable + seq![' ', 'e', 'x', 'p', 'o', 'r', 't', '='] + e.type_tag
        + seq![' ', 'd', 'b', 'c', '='] + join(tags, ',')
}

/// `board.variable [TYPE]`, the report of a missing variable.
pub open spec fn missing_text(e: EntryView) -> Seq<char> {
    e.board + seq!['.'] + e.variable + seq![' ', '['] + e.type_tag + seq![']']
}

/// What restoring entry `e` does, given the candidate variables.
pub open spec fn entry_outcome(
    boards: Seq<SdoBoardDef>,
    cands: Seq<(int, int)>,
    filter: Option<Seq<char>>,
    e: EntryView,
) -> ImportOutcome {
    if filter is Some && filter->0 != e.board {
        ImportOutcome::Skip
    } else {
        match last_exact(boards, cands, e) {
            Some(c) => ImportOutcome::Write(c.0, c.1, spec_export_to_value(e.value)),
            None => {
                let tags = name_tags(boards, cands, e);
                if tags.len() > 0 {
                    ImportOutcome::Mismatch(mismatch_text(e, tags))
                } else {
                    ImportOutcome::Missing(missing_text(e))
                }
            },
        }
    }
}

/// A write that a restore performs.
#[derive(Clone, Copy, Debug)]
pub struct PlannedSet {
    /// Position of the board in the database.
    pub board: usize,
    /// Position of the variable in the board.
    pub variable: usize,
    /// The value to write.
    pub value: Value,
}

/// What restoring an export file does: the writes, in the order of the
/// file, and the report lines for entries it cannot apply.
#[derive(Clone, Debug)]
pub struct ImportPlan {
    pub sets: Vec<PlannedSet>,
    pub missing: Vec<String>,
    pub type_mismatches: Vec<String>,
}

/// The writes that restoring `entries` performs.
pub open spec fn planned_sets(
    boards: Seq<SdoBoardDef>,
    cands: Seq<(int, int)>,
    filter: Option<Seq<char>>,
    entries: Seq<EntryView>,
) -> Seq<(int, int, Value)>
    decreases entries.len(),
{
    if entries.len() == 0 {
        Seq::empty()
    } else {
        let prev = planned_sets(boards, cands, filter, entries.drop_last());
        match entry_outcome(boards, cands, filter, entries.last()) {
            ImportOutcome::Write(b, v, value) => prev.push((b, v, value)),
            _ => prev,
        }
    }
}

/// The report lines of the entries no variable has the names of.
pub open spec fn planned_missing(
    boards: Seq<SdoBoardDef>,
    cands: Seq<(int, int)>,
    filter: Option<Seq<char>>,
    entries: Seq<EntryView>,
) -> Seq<Seq<char>>
    decreases entries.len(),
{
    if entries.len() == 0 {
        Seq::empty()
    } else {
        let prev = planned_missing(boards, cands, filter, entries.drop_last());
        match entry_outcome(boards, cands, filter, entries.last()) {
            ImportOutcome::Missing(t) => prev.push(t),
            _ => prev,
        }
    }
}

/// The report lines of the entries whose type differs from the database's.
pub open spec fn planned_mismatches(
    boards: Seq<SdoBoardDef>,
    cands: Seq<(int, int)>,
    filter: Option<Seq<char>>,
    entries: Seq<EntryView>,
) -> Seq<Seq<char>>
    decreases entries.len(),
{
    if entries.len() == 0 {
        Seq::empty()
    } else {
        let prev = planned_mismatches(boards, cands, filter, entries.drop_last());
        match entry_outcome(boards, cands, filter, entries.last()) {
            ImportOutcome::Mismatch(t) => prev.push(t),
            _ => prev,
        }
    }
}

/// The texts of a sequence of strings.
pub open spec fn texts(strings: Seq<String>) -> Seq<Seq<char>> {
    strings.map_values(|s: String| s@)
}

/// A planned write as positions and value.
pub open spec fn set_view(s: PlannedSet) -> (int, int, Value) {
    (s.board as int, s.variable as int, s.value)
}

/// The positions of a sequence of candidates.
pub open spec fn cand_view(cands: Seq<(usize, usize)>) -> Seq<(int, int)> {
    cands.map_values(|c: (usize, usize)| (c.0 as int, c.1 as int))
}

/// The candidates of the boards at `selected`, with their type tags.
fn build_candidates(boards: &Vec<SdoBoardDef>, selected: &Vec<usize>) -> (result: (Vec<(usize, usize)>, Vec<String>))
    requires
        forall|k: int| 0 <= k < selected@.len() ==> #[trigger] selected@[k] < boards@.len(),
    ensures
        cand_view(result.0@) == spec_candidates(boards@, selected@.map_values(|p: usize| p as int)),
        result.1@.len() == result.0@.len(),
        forall|j: int|
            0 <= j < result.0@.len() ==> #[trigger] result.1@[j]@ == candidate_tag(
                boards@,
                cand_view(result.0@)[j],
            ),
        forall|j: int|
            0 <= j < result.0@.len() ==> (#[trigger] result.0@[j]).0 < boards@.len()
                && result.0@[j].1 < boards@[result.0@[j].0 as int].variables@.len(),
{
    let ghost sel = selected@.map_values(|p: usize| p as int);
    let mut cands: Vec<(usize, usize)> = Vec::new();
    let mut tags: Vec<String> = Vec::new();
    let mut k: usize = 0;
    while k < selected.len()
        invariant
            sel == selected@.map_values(|p: usize| p as int),
            forall|q: int| 0 <= q < selected@.len() ==> #[trigger] selected@[q] < boards@.len(),
            k <= selected@.len(),
            cand_view(cands@) == spec_candidates(boards@, sel.subrange(0, k as int)),
            tags@.len() == cands@.len(),
            forall|j: int|
                0 <= j < cands@.len() ==> #[trigger] tags@[j]@ == candidate_tag(
                    boards@,
                    cand_view(cands@)[j],
                ),
            forall|j: int|
                0 <= j < cands@.len() ==> (#[trigger] cands@[j]).0 < boards@.len() && cands@[j].1
                    < boards@[cands@[j].0 as int].variables@.len(),
        decreases selected.len() - k,
    {
        let b = selected[k];
        let variables = &boards[b].variables;
        let ghost base = cand_view(cands@);
        let mut v: usize = 0;
        while v < variables.len()
            invariant
                b < boards@.len(),
                variables@ == boards@[b as int].variables@,
                v <= variables@.len(),
                cand_view(cands@) == base + Seq::new(v as nat, |w: int| (b as int, w)),
                tags@.len() == cands@.len(),
                forall|j: int|
                    0 <= j < cands@.len() ==> #[trigger] tags@[j]@ == candidate_tag(
                        boards@,
                        cand_view(cands@)[j],
                    ),
                forall|j: int|
                    0 <= j < cands@.len() ==> (#[trigger] cands@[j]).0 < boards@.len()
                        && cands@[j].1 < boards@[cands@[j].0 as int].variables@.len(),
            decreases variables.len() - v,
        {
            let ghost old_cands = cands@;
            cands.push((b, v));
            tags.push(storage_tag(variables[v].storage));
            assert(cand_view(cands@) =~= cand_view(old_cands).push((b as int, v as int)));
            assert(base + Seq::new((v + 1) as nat, |w: int| (b as int, w)) =~= (base + Seq::new(
                v as nat,
                |w: int| (b as int, w),
            )).push((b as int, v as int)));
            v = v + 1;
        }
        proof {
            let next = sel.subrange(0, k + 1);
            assert(next.drop_last() == sel.subrange(0, k as int));
            assert(next.last() == b as int);
        }
        k = k + 1;
    }
    assert(sel.subrange(0, selected@.len() as int) == sel);
    (cands, tags)
}

/// Whether the variable at `c` has the entry's board and variable names.
fn candidate_names_match(boards: &Vec<SdoBoardDef>, c: (usize, usize), entry: &ExportEntry) -> (m: bool)
    requires
        c.0 < boards@.len(),
        c.1 < boards@[c.0 as int].variables@.len(),
    ensures
        m == name_matches(boards@, (c.0 as int, c.1 as int), entry@),
{
    let board = &boards[c.0];
    same_text(board.name.as_str(), entry.board.as_str()) && same_text(
        board.variables[c.1].name.as_str(),
        entry.variable.as_str(),
    )
}

/// The position in `cands` of the last candidate with the entry's key.
fn find_exact(boards: &Vec<SdoBoardDef>, cands: &Vec<(usize, usize)>, tags: &Vec<String>, entry: &ExportEntry) -> (found: Option<usize>)
    requires
        tags@.len() == cands@.len(),
        forall|j: int|
            0 <= j < cands@.len() ==> #[trigger] tags@[j]@ == candidate_tag(
                boards@,
                cand_view(cands@)[j],
            ),
        forall|j: int|
            0 <= j < cands@.len() ==> (#[trigger] cands@[j]).0 < boards@.len() && cands@[j].1
                < boards@[cands@[j].0 as int].variables@.len(),
    ensures
        match found {
            Some(j) => j < cands@.len() && last_exact(boards@, cand_view(cands@), entry@) == Some(
                cand_view(cands@)[j as int],
            ),
            None => last_exact(boards@, cand_view(cands@), entry@) is None,
        },
{
    let ghost all = cand_view(cands@);
    let mut j = cands.len();
    assert(all.subrange(0, j as int) == all);
    while j > 0
        invariant
            j <= cands@.len(),
            all == cand_view(cands@),
            tags@.len() == cands@.len(),
            forall|q: int|
                0 <= q < cands@.len() ==> #[trigger] tags@[q]@ == candidate_tag(boards@, all[q]),
            forall|q: int|
                0 <= q < cands@.len() ==> (#[trigger] cands@[q]).0 < boards@.len() && cands@[q].1
                    < boards@[cands@[q].0 as int].variables@.len(),
            last_exact(boards@, all, entry@) == last_exact(boards@, all.subrange(0, j as int), entry@),
        decreases j,
    {
        let c = cands[j - 1];
        let ghost prefix = all.subrange(0, j as int);
        assert(prefix.drop_last() == all.subrange(0, j - 1));
        assert(prefix.last() == all[j - 1]);
        if candidate_names_match(boards, c, entry) && same_text(
            tags[j - 1].as_str(),
            entry.type_tag.as_str(),
        ) {
            return Some(j - 1);
        }
        j = j - 1;
    }
    None
}

/// The type tags of the candidates with the entry's names, in order.
fn collect_name_tags(boards: &Vec<SdoBoardDef>, cands: &Vec<(usize, usize)>, tags: &Vec<String>, entry: &ExportEntry) -> (found: Vec<String>)
    requires
        tags@.len() == cands@.len(),
        forall|j: int|
            0 <= j < cands@.len() ==> #[trigger] tags@[j]@ == candidate_tag(
                boards@,
                cand_view(cands@)[j],
            ),
        forall|j: int|
            0 <= j < cands@.len() ==> (#[trigger] cands@[j]).0 < boards@.len() && cands@[j].1
                < boards@[cands@[j].0 as int].variables@.len(),
    ensures
        texts(found@) == name_tags(boards@, cand_view(cands@), entry@),
{
    let ghost all = cand_view(cands@);
    let mut found: Vec<String> = Vec::new();
    let mut j: usize = 0;
    while j < cands.len()
        invariant
            j <= cands@.len(),
            all == cand_view(cands@),
            tags@.len() == cands@.len(),
            forall|q: int|
                0 <= q < cands@.len() ==> #[trigger] tags@[q]@ == candidate_tag(boards@, all[q]),
            forall|q: int|
                0 <= q < cands@.len() ==> (#[trigger] cands@[q]).0 < boards@.len() && cands@[q].1
                    < boards@[cands@[q].0 as int].variables@.len(),
            texts(found@) == name_tags(boards@, all.subrange(0, j as int), entry@),
        decreases cands.len() - j,
    {
        let ghost prefix = all.subrange(0, j + 1);
        assert(prefix.drop_last() == all.subrange(0, j as int));
        assert(prefix.last() == all[j as int]);
        if candidate_names_match(boards, cands[j], entry) {
            found.push(tags[j].clone());
            assert(texts(found@) == name_tags(boards@, all.subrange(0, j as int), entry@).push(
                tags@[j as int]@,
            ));
        }
        j = j + 1;
    }
    assert(all.subrange(0, cands@.len() as int) == all);
    found
}

/// `board.variable export=TYPE dbc=TAGS`.
fn mismatch_line(entry: &ExportEntry, found: &Vec<String>) -> (line: String)
    ensures
        line@ == mismatch_text(entry@, texts(found@)),
{
    let mut line = entry.board.clone();
    push_char(&mut line, '.');
    push_str(&mut line, entry.variable.as_str());
    push_str(&mut line, " export=");
    push_str(&mut line, entry.type_tag.as_str());
    push_str(&mut line, " dbc=");
    proof {
        reveal_strlit(" export=");
        reveal_strlit(" dbc=");
        assert(" export="@ == seq![' ', 'e', 'x', 'p', 'o', 'r', 't', '=']);
        assert(" dbc="@ == seq![' ', 'd', 'b', 'c', '=']);
    }
    let ghost head = line@;
    let ghost all = texts(found@);
    let mut k: usize = 0;
    while k < found.len()
        invariant
            k <= found@.len(),
            all == texts(found@),
            line@ == head + join(all.subrange(0, k as int), ','),
        decreases found.len() - k,
    {
        let ghost before = line@;
        if k > 0 {
            push_char(&mut line, ',');
        }
        push_str(&mut line, found[k].as_str());
        proof {
            let next = all.subrange(0, k + 1);
            assert(next.drop_last() == all.subrange(0, k as int));
            assert(next.last() == found@[k as int]@);
            if k == 0 {
                assert(join(next, ',') == found@[0]@);
                assert(join(all.subrange(0, 0), ',') == Seq::<char>::empty());
                assert(head + Seq::<char>::empty() == head);
            }
        }
        k = k + 1;
    }
    assert(all.subrange(0, found@.len() as int) == all);
    line
}

/// `board.variable [TYPE]`.
fn missing_line(entry: &ExportEntry) -> (line: String)
    ensures
        line@ == missing_text(entry@),
{
    let mut line = entry.board.clone();
    push_char(&mut line, '.');
    push_str(&mut line, entry.variable.as_str());
    push_char(&mut line, ' ');
    push_char(&mut line, '[');
    push_str(&mut line, entry.type_tag.as_str());
    push_char(&mut line, ']');
    line
}

/// What restoring `export` into the boards that pass `board_filter` does: an
/// entry for a board the filter leaves out is skipped; one whose board,
/// variable and type tag a selected variable has (the last such, when there
/// are several) is written there; the others are reported as a type mismatch
/// when a selected variable has their names, else as missing. A filter no
/// board passes is an error.
pub fn plan_import(export: &ExportFile, database: &Database, board_filter: Option<&str>) -> (result: Result<ImportPlan, LookupError>)
    ensures
        ({
            let boards = database.sdo_boards@;
            let filter = filter_text(board_filter);
            let selected = spec_filtered_boards(boards, filter);
            let cands = spec_candidates(boards, selected);
            let entries = entry_views(export.entries@);
            match result {
                Ok(plan) => !(board_filter is Some && selected.len() == 0)
                    && plan.sets@.map_values(|s: PlannedSet| set_view(s)) == planned_sets(
                    boards,
                    cands,
                    filter,
                    entries,
                ) && texts(plan.missing@) == planned_missing(boards, cands, filter, entries)
                    && texts(plan.type_mismatches@) == planned_mismatches(
                    boards,
                    cands,
                    filter,
                    entries,
                ),
                Err(e) => e == LookupError::BoardNotFound && board_filter is Some && selected.len()
                    == 0,
            }
        }),
{
    let boards = &database.sdo_boards;
    let selected = match filtered_boards(database, board_filter) {
        Ok(selected) => selected,
        Err(e) => return Err(e),
    };
    proof {
        assert forall|k: int| 0 <= k < selected@.len() implies #[trigger] selected@[k] < boards@.len() by {
            lemma_filtered_in_range(boards@, filter_text(board_filter), k);
            assert(selected@.map_values(|p: usize| p as int)[k] == selected@[k] as int);
        }
    }
    let (cands, tags) = build_candidates(boards, &selected);
    let ghost filter = filter_text(board_filter);
    let ghost cv = cand_view(cands@);
    let ghost all = entry_views(export.entries@);
    let mut plan = ImportPlan { sets: Vec::new(), missing: Vec::new(), type_mismatches: Vec::new() };
    let mut i: usize = 0;
    while i < export.entries.len()
        invariant
            i <= export.entries@.len(),
            all == entry_views(export.entries@),
            cv == cand_view(cands@),
            filter == filter_text(board_filter),
            tags@.len() == cands@.len(),
            forall|j: int| 0 <= j < cands@.len() ==> #[trigger] tags@[j]@ == candidate_tag(boards@, cv[j]),
            forall|j: int|
                0 <= j < cands@.len() ==> (#[trigger] cands@[j]).0 < boards@.len() && cands@[j].1
                    < boards@[cands@[j].0 as int].variables@.len(),
            plan.sets@.map_values(|s: PlannedSet| set_view(s)) == planned_sets(
                boards@,
                cv,
                filter,
                all.subrange(0, i as int),
            ),
            texts(plan.missing@) == planned_missing(boards@, cv, filter, all.subrange(0, i as int)),
            texts(plan.type_mismatches@) == planned_mismatches(
                boards@,
                cv,
                filter,
                all.subrange(0, i as int),
            ),
        decreases export.entries.len() - i,
    {
        let entry = &export.entries[i];
        let ghost prefix = all.subrange(0, i + 1);
        assert(prefix.drop_last() == all.subrange(0, i as int));
        assert(prefix.last() == entry@);
        let skip = match board_filter {
            Some(name) => !same_text(name, entry.board.as_str()),
            None => false,
        };
        if !skip {
            match find_exact(boards, &cands, &tags, entry) {
                Some(j) => {
                    let set = PlannedSet {
                        board: cands[j].0,
                        variable: cands[j].1,
                        value: export_to_value(entry.value),
                    };
                    plan.sets.push(set);
                    assert(plan.sets@.map_values(|s: PlannedSet| set_view(s)) == planned_sets(
                        boards@,
                        cv,
                        filter,
                        all.subrange(0, i as int),
                    ).push(set_view(set)));
                },
                None => {
                    let found = collect_name_tags(boards, &cands, &tags, entry);
                    if found.len() > 0 {
                        let line = mismatch_line(entry, &found);
                        plan.type_mismatches.push(line);
                        assert(texts(plan.type_mismatches@) == planned_mismatches(
                            boards@,
                            cv,
                            filter,
                            all.subrange(0, i as int),
                        ).push(line@));
                    } else {
                        let line = missing_line(entry);
                        plan.missing.push(line);
                        assert(texts(plan.missing@) == planned_missing(
                            boards@,
                            cv,
                            filter,
                            all.subrange(0, i as int),
                        ).push(line@));
                    }
                },
            }
        }
        i = i + 1;
    }
    assert(all.subrange(0, export.entries@.len() as int) == all);
    Ok(plan)
}

proof fn lemma_filtered_in_range(boards: Seq<SdoBoardDef>, filter: Option<Seq<char>>, k: int)
    requires
        0 <= k < spec_filtered_boards(boards, filter).len(),
    ensures
        0 <= spec_filtered_boards(boards, filter)[k] < boards.len(),
    decreases boards.len(),
{
    if boards.len() > 0 {
        let prev = spec_filtered_boards(boards.drop_last(), filter);
        if k < prev.len() {
            lemma_filtered_in_range(boards.drop_last(), filter, k);
        }
    }
}

proof fn lemma_last_exact(boards: Seq<SdoBoardDef>, cands: Seq<(int, int)>, e: EntryView)
    ensures
        last_exact(boards, cands, e) is None <==> forall|k: int|
            0 <= k < cands.len() ==> !key_matches(boards, #[trigger] cands[k], e),
        last_exact(boards, cands, e) matches Some(c) ==> key_matches(boards, c, e)
            && cands.contains(c),
    decreases cands.len(),
{
    if cands.len() > 0 {
        let prev = cands.drop_last();
        lemma_last_exact(boards, prev, e);
        if !key_matches(boards, cands.last(), e) {
            assert forall|k: int|
                0 <= k < prev.len() && !key_matches(boards, #[trigger] prev[k], e) implies !key_matches(
                boards,
                cands[k],
                e,
            ) by {
                assert(prev[k] == cands[k]);
            }
            if last_exact(boards, prev, e) is None {
                assert forall|k: int| 0 <= k < cands.len() implies !key_matches(boards, #[trigger] cands[k], e) by {
                    if k < prev.len() {
                        assert(prev[k] == cands[k]);
                    }
                }
            } else {
                let c = last_exact(boards, prev, e)->0;
                let k = choose|k: int| 0 <= k < prev.len() && prev[k] == c;
                assert(cands[k] == c);
            }
        } else {
            assert(cands[cands.len() - 1] == cands.last());
        }
    }
}

proof fn lemma_name_tags(boards: Seq<SdoBoardDef>, cands: Seq<(int, int)>, e: EntryView)
    ensures
        name_tags(boards, cands, e).len() > 0 <==> exists|k: int|
            0 <= k < cands.len() && name_matches(boards, #[trigger] cands[k], e),
    decreases cands.len(),
{
    if cands.len() > 0 {
        let prev = cands.drop_last();
        lemma_name_tags(boards, prev, e);
        if exists|k: int| 0 <= k < prev.len() && name_matches(boards, #[trigger] prev[k], e) {
            let k = choose|k: int| 0 <= k < prev.len() && name_matches(boards, #[trigger] prev[k], e);
            assert(cands[k] == prev[k]);
        }
        if exists|k: int| 0 <= k < cands.len() && name_matches(boards, #[trigger] cands[k], e) {
            let k = choose|k: int| 0 <= k < cands.len() && name_matches(boards, #[trigger] cands[k], e);
            if k < prev.len() {
                assert(cands[k] == prev[k]);
            }
        }
    }
}

/// A restore never writes a variable other than one with the entry's board,
/// variable and type tag: an entry that passes the filter is written exactly
/// when a selected variable has its key, and then to such a variable with
/// the entry's value; otherwise it is reported as a type mismatch when a
/// selected variable has its names and as missing when none does.
pub proof fn law_restore_matches_by_key(
    boards: Seq<SdoBoardDef>,
    cands: Seq<(int, int)>,
    filter: Option<Seq<char>>,
    e: EntryView,
)
    requires
        !(filter is Some && filter->0 != e.board),
    ensures
        (entry_outcome(boards, cands, filter, e) is Write) <==> exists|k: int|
            0 <= k < cands.len() && key_matches(boards, #[trigger] cands[k], e),
        entry_outcome(boards, cands, filter, e) matches ImportOutcome::Write(b, v, value) ==> (
        cands.contains((b, v)) && key_matches(boards, (b, v), e) && value
            == spec_export_to_value(e.value)),
        (entry_outcome(boards, cands, filter, e) is Mismatch) <==> (forall|k: int|
            0 <= k < cands.len() ==> !key_matches(boards, #[trigger] cands[k], e)) && exists|k: int|
            0 <= k < cands.len() && name_matches(boards, #[trigger] cands[k], e),
        (entry_outcome(boards, cands, filter, e) is Missing) <==> forall|k: int|
            0 <= k < cands.len() ==> !name_matches(boards, #[trigger] cands[k], e),
{
    lemma_last_exact(boards, cands, e);
    lemma_name_tags(boards, cands, e);
    if exists|k: int| 0 <= k < cands.len() && name_matches(boards, #[trigger] cands[k], e) {
        assert(!forall|k: int| 0 <= k < cands.len() ==> !name_matches(boards, #[trigger] cands[k], e));
    }
    if exists|k: int| 0 <= k < cands.len() && key_matches(boards, #[trigger] cands[k], e) {
        let k = choose|k: int| 0 <= k < cands.len() && key_matches(boards, #[trigger] cands[k], e);
        assert(name_matches(boards, cands[k], e));
    }
}

/// Restoring the entry that an export made for a selected variable writes
/// the exported value back to a variable with the same board, variable and
/// type tag.
pub proof fn law_restore_of_export(
    boards: Seq<SdoBoardDef>,
    cands: Seq<(int, int)>,
    filter: Option<Seq<char>>,
    k: int,
    value: Value,
)
    requires
        0 <= k < cands.len(),
        0 <= cands[k].0 < boards.len(),
        0 <= cands[k].1 < boards[cands[k].0].variables@.len(),
        !(filter is Some && filter->0 != boards[cands[k].0].name@),
    ensures
        ({
            let board = boards[cands[k].0];
            let e = spec_export_entry(board, board.variables@[cands[k].1], value);
            entry_outcome(boards, cands, filter, e) matches ImportOutcome::Write(b, v, written) && written
                == value && key_matches(boards, (b, v), e)
        }),
{
    let board = boards[cands[k].0];
    let e = spec_export_entry(board, board.variables@[cands[k].1], value);
    assert(key_matches(boards, cands[k], e));
    law_restore_matches_by_key(boards, cands, filter, e);
    law_export_value_roundtrip(value, spec_value_to_export(value));
}

/// No two entries share board, variable and type tag.
pub open spec fn keys_distinct(entries: Seq<EntryView>) -> bool {
    forall|i: int, j: int|
        0 <= i < j < entries.len() ==> !(#[trigger] entries[i].board == #[trigger] entries[j].board
            && entries[i].variable == entries[j].variable && entries[i].type_tag == entries[j].type_tag)
}

/// The entry for a cached value, as a multiset of at most one entry.
spec fn entry_multiset(entry: Option<EntryView>) -> Multiset<EntryView> {
    match entry {
        Some(e) => Multiset::singleton(e),
        None => Multiset::empty(),
    }
}

proof fn lemma_cached_entries_remove(boards: Seq<SdoBoardDef>, cache: Seq<CachedValue>, j: int)
    requires
        0 <= j < cache.len(),
    ensures
        cached_entries(boards, cache).to_multiset() =~= cached_entries(boards, cache.remove(j)).to_multiset().add(
            entry_multiset(cached_entry(boards, cache[j])),
        ),
    decreases cache.len(),
{
    broadcast use vstd::seq_lib::group_to_multiset_ensures;
    broadcast use vstd::multiset::group_multiset_axioms;

    let n = cache.len();
    if j == n - 1 {
        assert(cache.remove(j) =~= cache.drop_last());
    } else {
        let rest = cache.remove(j);
        assert(rest.drop_last() =~= cache.drop_last().remove(j));
        assert(rest.last() == cache.last());
        assert(cache.drop_last()[j] == cache[j]);
        lemma_cached_entries_remove(boards, cache.drop_last(), j);
    }
}

proof fn lemma_cached_entries_permutation(boards: Seq<SdoBoardDef>, c1: Seq<CachedValue>, c2: Seq<CachedValue>)
    requires
        c1.to_multiset() == c2.to_multiset(),
    ensures
        cached_entries(boards, c1).to_multiset() == cached_entries(boards, c2).to_multiset(),
    decreases c1.len(),
{
    broadcast use vstd::seq_lib::group_to_multiset_ensures;
    broadcast use vstd::multiset::group_multiset_axioms;

    assert(c1.to_multiset().len() == c1.len());
    assert(c2.to_multiset().len() == c2.len());
    if c1.len() == 0 {
        assert(c2.len() == 0);
        assert(c1 =~= c2);
    } else {
        let x = c1.last();
        assert(c1.contains(x)) by {
            assert(c1[c1.len() - 1] == x);
        }
        assert(c2.to_multiset().count(x) > 0);
        assert(c2.contains(x));
        let j = choose|j: int| 0 <= j < c2.len() && c2[j] == x;
        assert(c1.drop_last() =~= c1.remove(c1.len() - 1));
        assert(c1.drop_last().to_multiset() =~= c2.remove(j).to_multiset());
        lemma_cached_entries_permutation(boards, c1.drop_last(), c2.remove(j));
        lemma_cached_entries_remove(boards, c1, c1.len() - 1);
        lemma_cached_entries_remove(boards, c2, j);
    }
}

proof fn lemma_two_occurrences(t: Seq<EntryView>, x: EntryView)
    requires
        t.to_multiset().count(x) >= 2,
    ensures
        exists|p: int, q: int| 0 <= p < q < t.len() && t[p] == x && t[q] == x,
    decreases t.len(),
{
    broadcast use vstd::seq_lib::group_to_multiset_ensures;
    broadcast use vstd::multiset::group_multiset_axioms;

    if t.len() == 0 {
        assert(t.to_multiset() =~= Multiset::empty());
    } else {
        let init = t.drop_last();
        assert(t =~= init.push(t.last()));
        assert(t.to_multiset() =~= init.to_multiset().insert(t.last()));
        if t.last() == x {
            assert(init.to_multiset().count(x) >= 1);
            assert(init.contains(x));
            let p = choose|p: int| 0 <= p < init.len() && init[p] == x;
            assert(t[p] == x && t[t.len() - 1] == x);
        } else {
            lemma_two_occurrences(init, x);
            let (p, q) = choose|p: int, q: int| 0 <= p < q < init.len() && init[p] == x && init[q] == x;
            assert(t[p] == x && t[q] == x);
        }
    }
}

proof fn lemma_keys_distinct_permutation(s: Seq<EntryView>, t: Seq<EntryView>)
    requires
        s.to_multiset() == t.to_multiset(),
        keys_distinct(t),
    ensures
        keys_distinct(s),
{
    broadcast use vstd::seq_lib::group_to_multiset_ensures;

    assert forall|i: int, j: int| 0 <= i < j < s.len() implies !(#[trigger] s[i].board == #[trigger] s[j].board
        && s[i].variable == s[j].variable && s[i].type_tag == s[j].type_tag) by {
        if s[i].board == s[j].board && s[i].variable == s[j].variable && s[i].type_tag == s[j].type_tag {
            if s[i] == s[j] {
                assert(s.remove(j).contains(s[i])) by {
                    assert(s.remove(j)[i] == s[i]);
                }
                assert(s.remove(j).to_multiset().count(s[i]) > 0);
                assert(s.to_multiset().count(s[i]) >= 2);
                lemma_two_occurrences(t, s[i]);
            } else {
                assert(s.contains(s[i]));
                assert(s.contains(s[j]));
                assert(s.to_multiset().count(s[i]) > 0);
                assert(s.to_multiset().count(s[j]) > 0);
                assert(t.to_multiset().count(s[i]) > 0);
                assert(t.to_multiset().count(s[j]) > 0);
                assert(t.contains(s[i]));
                assert(t.contains(s[j]));
                let p = choose|p: int| 0 <= p < t.len() && t[p] == s[i];
                let q = choose|q: int| 0 <= q < t.len() && t[q] == s[j];
                if p < q {
                    assert(t[p].board == t[q].board);
                } else {
                    assert(t[q].board == t[p].board);
                }
            }
        }
    }
}

proof fn lemma_sorted_unique(a: Seq<EntryView>, b: Seq<EntryView>)
    requires
        entries_sorted(a),
        entries_sorted(b),
        keys_distinct(a),
        a.to_multiset() == b.to_multiset(),
    ensures
        a == b,
    decreases a.len(),
{
    broadcast use vstd::seq_lib::group_to_multiset_ensures;

    assert(a.to_multiset().len() == a.len());
    assert(b.to_multiset().len() == b.len());
    if a.len() == 0 {
        assert(b.len() == 0);
        assert(a =~= b);
    } else {
        assert(b.len() == a.len());
        assert(a.contains(a[0]));
        assert(a.to_multiset().count(a[0]) > 0);
        assert(b.to_multiset().count(a[0]) > 0);
        assert(b.contains(a[0]));
        assert(b.contains(b[0]));
        assert(b.to_multiset().count(b[0]) > 0);
        assert(a.to_multiset().count(b[0]) > 0);
        assert(a.contains(b[0]));
        let i = choose|i: int| 0 <= i < b.len() && b[i] == a[0];
        let j = choose|j: int| 0 <= j < a.len() && a[j] == b[0];
        if i > 0 && j > 0 {
            assert(!entry_lt(a[j], a[0]));
            lemma_text_lt_total(a[0].board, a[j].board);
            lemma_text_lt_total(a[0].variable, a[j].variable);
            lemma_text_lt_total(a[0].type_tag, a[j].type_tag);
            assert(entry_lt(a[0], a[j]));
            assert(!entry_lt(b[i], b[0]));
        }
        assert(a[0] == b[0]);
        assert(a.drop_first() =~= a.remove(0));
        assert(b.drop_first() =~= b.remove(0));
        assert(a.drop_first().to_multiset() =~= b.drop_first().to_multiset());
        assert forall|p: int, q: int| 0 <= p < q < a.drop_first().len() implies !entry_lt(
            a.drop_first()[q],
            a.drop_first()[p],
        ) by {
            assert(a.drop_first()[q] == a[q + 1]);
            assert(a.drop_first()[p] == a[p + 1]);
        }
        assert forall|p: int, q: int| 0 <= p < q < b.drop_first().len() implies !entry_lt(
            b.drop_first()[q],
            b.drop_first()[p],
        ) by {
            assert(b.drop_first()[q] == b[q + 1]);
            assert(b.drop_first()[p] == b[p + 1]);
        }
        assert forall|p: int, q: int| 0 <= p < q < a.drop_first().len() implies !(
        #[trigger] a.drop_first()[p].board == #[trigger] a.drop_first()[q].board && a.drop_first()[p].variable
            == a.drop_first()[q].variable && a.drop_first()[p].type_tag == a.drop_first()[q].type_tag) by {
            assert(a.drop_first()[q] == a[q + 1]);
            assert(a.drop_first()[p] == a[p + 1]);
        }
        lemma_sorted_unique(a.drop_first(), b.drop_first());
        assert(a =~= b) by {
            assert forall|k: int| 0 <= k < a.len() implies a[k] == b[k] by {
                if k > 0 {
                    assert(a[k] == a.drop_first()[k - 1]);
                    assert(b[k] == b.drop_first()[k - 1]);
                }
            }
        }
    }
}

/// The export of the cache does not depend on the order of the cache: two
/// caches with the same values give the same export file, when no two of
/// the entries they give share board, variable and type tag.
pub proof fn law_export_ignores_cache_order(
    boards: Seq<SdoBoardDef>,
    c1: Seq<CachedValue>,
    c2: Seq<CachedValue>,
    f1: Seq<EntryView>,
    f2: Seq<EntryView>,
)
    requires
        c1.to_multiset() == c2.to_multiset(),
        keys_distinct(cached_entries(boards, c1)),
        entries_sorted(f1),
        f1.to_multiset() == cached_entries(boards, c1).to_multiset(),
        entries_sorted(f2),
        f2.to_multiset() == cached_entries(boards, c2).to_multiset(),
    ensures
        f1 == f2,
{
    lemma_cached_entries_permutation(boards, c1, c2);
    lemma_keys_distinct_permutation(f1, cached_entries(boards, c1));
    lemma_sorted_unique(f1, f2);
}

/// What a restore does with an entry depends on its board, variable, type
/// tag and value only: the saved `var_id` and unit play no part.
pub proof fn law_restore_ignores_var_id(
    boards: Seq<SdoBoardDef>,
    cands: Seq<(int, int)>,
    filter: Option<Seq<char>>,
    e1: EntryView,
    e2: EntryView,
)
    requires
        e1.board == e2.board,
        e1.variable == e2.variable,
        e1.type_tag == e2.type_tag,
        e1.value == e2.value,
    ensures
        entry_outcome(boards, cands, filter, e1) == entry_outcome(boards, cands, filter, e2),
{
    lemma_same_key_outcome(boards, cands, e1, e2);
}

proof fn lemma_same_key_outcome(boards: Seq<SdoBoardDef>, cands: Seq<(int, int)>, e1: EntryView, e2: EntryView)
    requires
        e1.board == e2.board,
        e1.variable == e2.variable,
        e1.type_tag == e2.type_tag,
    ensures
        last_exact(boards, cands, e1) == last_exact(boards, cands, e2),
        name_tags(boards, cands, e1) == name_tags(boards, cands, e2),
    decreases cands.len(),
{
    if cands.len() > 0 {
        lemma_same_key_outcome(boards, cands.drop_last(), e1, e2);
    }
}

/// The name of an export file written for `scope` (a board, or all boards)
/// at `stamp` seconds since the Unix epoch.
pub open spec fn spec_export_file_name(scope: Option<Seq<char>>, stamp: u64) -> Seq<char> {
    let scope = match scope {
        Some(s) => s,
        None => "all"@,
    };
    "export_"@ + scope + "_"@ + decimal(stamp as nat) + ".toml"@
}

/// The name of an export file: `export_<scope>_<stamp>.toml`, the scope
/// being `all` when no board is named.
pub fn export_file_name(scope: Option<&str>, stamp: u64) -> (name: String)
    ensures
        name@ == spec_export_file_name(filter_text(scope), stamp),
{
    let mut name = String::new();
    push_str(&mut name, "export_");
    match scope {
        Some(s) => push_str(&mut name, s),
        None => push_str(&mut name, "all"),
    }
    push_str(&mut name, "_");
    push_decimal(&mut name, stamp);
    push_str(&mut name, ".toml");
    name
}

} // verus!
