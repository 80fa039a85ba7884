//! The state of the interactive front end: panes, selection, filters,
//! sorting, the cache of values read from the boards and the operation log.
use vstd::prelude::*;

use std::time::Instant;

use crate::config::{DbccRuntime, RuntimeConfig};
use crate::dbc::{Database, SdoBoardDef, SdoVariableDef, Value, ValueKind, ValueStorage};
use crate::bits::{
    extract_bits, field_value, insert_bits, inserts, law_extract_after_insert, law_insert_keeps_other_fields,
    lemma_zero_field, low_bits,
};
use crate::can;
use crate::dbc::{EncodeError, fits_float_width, float_width_fits, spec_decode_raw, spec_encode_raw, spec_is_scaled};
use crate::exports::{
    clone_opt_string, find_board, find_variable, first_board_index, first_variable_index,
    kind_letter, opt_text, spec_storage_tag, storage_tag,
};
use crate::text::{
    compare_text, lemma_text_lt_asymmetric, lemma_text_lt_irreflexive, lemma_text_lt_transitive,
    text_lt, TextOrder, lemma_trim_start_suffix, ascii_lower_text, chars_of, contains_chars, contains_text, decimal, is_space, is_whitespace,
    lower_chars, owned, push_char, push_decimal, push_str, same_text, string_of, trim_start,
};

verus! {

/// A point in time (`std::time::Instant`).
#[verifier::external_type_specification]
#[verifier::external_body]
pub struct ExInstant(Instant);

/// The current time (`Instant::now`); nothing is stated of it.
#[verifier::external_body]
pub(crate) fn now() -> Instant {
    Instant::now()
}

/// A value read from a board, with the time it arrived.
#[derive(Debug)]
pub struct CachedValue {
    pub board: String,
    pub var_id: u16,
    pub value: Value,
    pub updated_at: Instant,
}

/// The panes of the front end.
#[derive(Clone, Copy, Debug, PartialEq, Eq, Structural)]
pub enum Pane {
    Boards,
    Variables,
    Log,
}

/// The column the variable table is sorted by.
#[derive(Clone, Copy, Debug, PartialEq, Eq, Structural)]
pub enum SortField {
    Board,
    Variable,
    VarId,
    Type,
}

/// The direction of the sort.
#[derive(Clone, Copy, Debug, PartialEq, Eq, Structural)]
pub enum SortDirection {
    Asc,
    Desc,
}

/// What the keyboard is typing into, if anything.
#[derive(Clone, Debug)]
pub enum InputMode {
    /// The variable search filter.
    Search,
    /// A new value for a variable.
    SetValue { board: String, var_id: u16, name: String, storage: ValueStorage, buffer: String },
}

/// One line of the operation log.
#[derive(Debug)]
pub struct OperationLogEntry {
    pub timestamp: Instant,
    pub title: String,
    pub detail: String,
}

/// The keys the front end reacts to.
#[derive(Clone, Copy, Debug, PartialEq, Eq, Structural)]
pub enum Key {
    Tab,
    BackTab,
    Up,
    Down,
    Enter,
    Esc,
    Backspace,
    Char(char),
    Other,
}

/// The most lines the operation log keeps.
pub const LOG_CAPACITY: usize = 128;

/// The state of the front end.
pub struct App {
    pub runtime: RuntimeConfig,
    pub database: Database,
    pub dbcc: DbccRuntime,
    pub transport_error: Option<String>,
    pub pane: Pane,
    pub board_index: usize,
    pub variable_index: usize,
    pub sort_field: SortField,
    pub sort_direction: SortDirection,
    pub board_filter: Option<String>,
    pub search_filter: String,
    pub logs: Vec<OperationLogEntry>,
    pub last_status: String,
    pub should_quit: bool,
    pub sdo_values: Vec<CachedValue>,
    pub input_mode: Option<InputMode>,
}

/// The pane after `pane` in focus order.
pub open spec fn next_pane(pane: Pane) -> Pane {
    match pane {
        Pane::Boards => Pane::Variables,
        Pane::Variables => Pane::Log,
        Pane::Log => Pane::Boards,
    }
}

/// The pane before `pane` in focus order.
pub open spec fn prev_pane(pane: Pane) -> Pane {
    match pane {
        Pane::Boards => Pane::Log,
        Pane::Variables => Pane::Boards,
        Pane::Log => Pane::Variables,
    }
}

/// The sort column after `field`.
pub open spec fn next_sort_field(field: SortField) -> SortField {
    match field {
        SortField::Board => SortField::Variable,
        SortField::Variable => SortField::VarId,
        SortField::VarId => SortField::Type,
        SortField::Type => SortField::Board,
    }
}

/// The other sort direction.
pub open spec fn other_direction(direction: SortDirection) -> SortDirection {
    match direction {
        SortDirection::Asc => SortDirection::Desc,
        SortDirection::Desc => SortDirection::Asc,
    }
}

/// The name of a sort column.
pub open spec fn sort_field_name(field: SortField) -> Seq<char> {
    match field {
        SortField::Board => seq!['B', 'o', 'a', 'r', 'd'],
        SortField::Variable => seq!['V', 'a', 'r', 'i', 'a', 'b', 'l', 'e'],
        SortField::VarId => seq!['V', 'a', 'r', 'I', 'd'],
        SortField::Type => seq!['T', 'y', 'p', 'e'],
    }
}

/// The name of a sort direction.
pub open spec fn direction_name(direction: SortDirection) -> Seq<char> {
    match direction {
        SortDirection::Asc => seq!['A', 's', 'c'],
        SortDirection::Desc => seq!['D', 'e', 's', 'c'],
    }
}

/// The log after appending an entry: the last `LOG_CAPACITY` entries.
pub open spec fn bounded_log<T>(log: Seq<T>, entry: T) -> Seq<T> {
    let all = log.push(entry);
    if all.len() > LOG_CAPACITY {
        all.skip(all.len() - LOG_CAPACITY)
    } else {
        all
    }
}

/// `new` is the log `old` with one line added whose title and detail are
/// `text`: the lines kept from `old` are unchanged, timestamps included, and
/// the oldest are dropped beyond `LOG_CAPACITY`.
pub open spec fn log_grown(old: Seq<OperationLogEntry>, new: Seq<OperationLogEntry>, text: (Seq<char>, Seq<char>)) -> bool {
    &&& new.len() > 0
    &&& log_text(new.last()) == text
    &&& new == bounded_log(old, new.last())
    &&& log_texts(new) == bounded_log(log_texts(old), text)
}

/// The log at start: which DBC, interface and `dbcc` are in use, and why the
/// bus could not be opened, if it could not.
pub open spec fn startup_log(runtime: RuntimeConfig, dbcc_status: Seq<char>, transport_error: Option<Seq<char>>) -> Seq<(Seq<char>, Seq<char>)> {
    let first = (
        "startup"@,
        "dbc="@ + runtime.dbc_path@ + " can="@ + runtime.socketcan@ + " dbcc="@ + dbcc_status,
    );
    match transport_error {
        Some(e) => seq![first, ("socketcan"@, e)],
        None => seq![first],
    }
}

/// The text of a log entry: title and detail.
pub open spec fn log_text(entry: OperationLogEntry) -> (Seq<char>, Seq<char>) {
    (entry.title@, entry.detail@)
}

/// The texts of the log.
pub open spec fn log_texts(log: Seq<OperationLogEntry>) -> Seq<(Seq<char>, Seq<char>)> {
    log.map_values(|e: OperationLogEntry| log_text(e))
}

/// The step of a cyclic selection: `(index + 1) mod len`.
pub open spec fn step_forward(index: usize, len: usize) -> usize {
    if len > 0 {
        ((index + 1) % (len as int)) as usize
    } else {
        index
    }
}

/// The step back of a cyclic selection: `(index + len - 1) mod len`.
pub open spec fn step_back(index: usize, len: usize) -> usize {
    if len > 0 {
        ((index + len - 1) % (len as int)) as usize
    } else {
        index
    }
}

fn cycle_forward(index: usize, len: usize) -> (next: usize)
    ensures
        next == step_forward(index, len),
{
    if len > 0 {
        proof {
            vstd::arithmetic::div_mod::lemma_add_mod_noop(index as int, 1, len as int);
            vstd::arithmetic::div_mod::lemma_mod_bound(index as int, len as int);
            if len > 1 {
                vstd::arithmetic::div_mod::lemma_small_mod(1, len as nat);
            }
        }
        if len == 1 {
            proof {
                vstd::arithmetic::div_mod::lemma_mod_self_0(1);
                assert((index + 1) % 1 == 0) by (nonlinear_arith);
            }
            0
        } else {
            (index % len + 1) % len
        }
    } else {
        index
    }
}

fn cycle_back(index: usize, len: usize) -> (next: usize)
    ensures
        next == step_back(index, len),
{
    if len > 0 {
        let r = index % len;
        proof {
            vstd::arithmetic::div_mod::lemma_mod_bound(index as int, len as int);
            vstd::arithmetic::div_mod::lemma_add_mod_noop(index as int, len - 1, len as int);
            vstd::arithmetic::div_mod::lemma_small_mod((len - 1) as nat, len as nat);
            if r == 0 {
                vstd::arithmetic::div_mod::lemma_small_mod((r + len - 1) as nat, len as nat);
            }
            if r > 0 {
                vstd::arithmetic::div_mod::lemma_mod_add_multiples_vanish((r - 1) as int, len as int);
                vstd::arithmetic::div_mod::lemma_small_mod((r - 1) as nat, len as nat);
            }
        }
        if r == 0 {
            len - 1
        } else {
            r - 1
        }
    } else {
        index
    }
}

/// Drops the oldest lines until at most `LOG_CAPACITY` are left.
fn trim_log(logs: &mut Vec<OperationLogEntry>)
    ensures
        final(logs)@ == if old(logs)@.len() > LOG_CAPACITY {
            old(logs)@.skip(old(logs)@.len() - LOG_CAPACITY)
        } else {
            old(logs)@
        },
{
    let ghost all = logs@;
    while logs.len() > LOG_CAPACITY
        invariant
            all.len() >= logs@.len(),
            logs@.len() >= LOG_CAPACITY || logs@.len() == all.len(),
            logs@ == all.skip(all.len() - logs@.len()),
        decreases logs.len(),
    {
        let ghost current = logs@;
        logs.remove(0);
        assert(logs@ == all.skip(all.len() - logs@.len())) by {
            assert(logs@ == current.drop_first());
        }
    }
    proof {
        if all.len() <= LOG_CAPACITY {
            assert(all.skip(0) == all);
        }
    }
}

impl App {
    /// The front end at start: boards pane, first rows, sorted by board
    /// ascending, no filter, empty cache, and a log that says which DBC,
    /// interface and `dbcc` are in use and, when the bus could not be
    /// opened, why.
    pub fn new(runtime: RuntimeConfig, database: Database, transport_error: Option<String>, dbcc: DbccRuntime) -> (app: App)
        ensures
            app.runtime == runtime,
            app.database == database,
            app.dbcc == dbcc,
            app.transport_error == transport_error,
            app.pane == Pane::Boards,
            app.board_index == 0,
            app.variable_index == 0,
            app.sort_field == SortField::Board,
            app.sort_direction == SortDirection::Asc,
            app.board_filter is None,
            app.search_filter@ == Seq::<char>::empty(),
            !app.should_quit,
            app.sdo_values@.len() == 0,
            app.input_mode is None,
            log_texts(app.logs@) == startup_log(runtime, dbcc.status@, opt_text(transport_error)),
            app.last_status@ == startup_log(runtime, dbcc.status@, opt_text(transport_error)).last().1,
    {
        let mut detail = owned("dbc=");
        push_str(&mut detail, runtime.dbc_path.as_str());
        push_str(&mut detail, " can=");
        push_str(&mut detail, runtime.socketcan.as_str());
        push_str(&mut detail, " dbcc=");
        push_str(&mut detail, dbcc.status.as_str());
        let error = clone_opt_string(&transport_error);
        let mut app = App {
            runtime,
            database,
            dbcc,
            transport_error,
            pane: Pane::Boards,
            board_index: 0,
            variable_index: 0,
            sort_field: SortField::Board,
            sort_direction: SortDirection::Asc,
            board_filter: None,
            search_filter: String::new(),
            logs: Vec::new(),
            last_status: String::new(),
            should_quit: false,
            sdo_values: Vec::new(),
            input_mode: None,
        };
        assert(log_texts(app.logs@) =~= Seq::<(Seq<char>, Seq<char>)>::empty());
        app.push_status(owned("startup"), detail);
        match error {
            Some(e) => app.push_status(owned("socketcan"), e),
            None => {},
        }
        app
    }

    /// Whether the front end should stop.
    pub fn should_quit(&self) -> (quit: bool)
        ensures
            quit == self.should_quit,
    {
        self.should_quit
    }

    /// Asks the front end to stop.
    pub fn quit(&mut self)
        ensures
            *final(self) == (App { should_quit: true, ..*old(self) }),
    {
        self.should_quit = true;
    }

    /// Appends a line to the operation log, which keeps its last
    /// `LOG_CAPACITY` lines, and makes `detail` the last status.
    pub fn push_status(&mut self, title: String, detail: String)
        ensures
            final(self).last_status@ == detail@,
            log_grown(old(self).logs@, final(self).logs@, (title@, detail@)),
            final(self).database == old(self).database,
            final(self).pane == old(self).pane,
            final(self).board_index == old(self).board_index,
            final(self).variable_index == old(self).variable_index,
            final(self).sort_field == old(self).sort_field,
            final(self).sort_direction == old(self).sort_direction,
            final(self).board_filter == old(self).board_filter,
            final(self).search_filter == old(self).search_filter,
            final(self).should_quit == old(self).should_quit,
            final(self).sdo_values == old(self).sdo_values,
            final(self).input_mode == old(self).input_mode,
            final(self).runtime == old(self).runtime,
            final(self).dbcc == old(self).dbcc,
            final(self).transport_error == old(self).transport_error,
    {
        self.last_status = detail.clone();
        assert(self.last_status@ == detail@);
        let ghost before = log_texts(self.logs@);
        self.logs.push(OperationLogEntry { timestamp: now(), title, detail });
        assert(log_texts(self.logs@) == before.push((title@, detail@)));
        let ghost pushed = self.logs@;
        trim_log(&mut self.logs);
        proof {
            let texts_all = log_texts(pushed);
            if pushed.len() > LOG_CAPACITY {
                assert(log_texts(self.logs@) == texts_all.skip(texts_all.len() - LOG_CAPACITY));
            }
            assert(self.logs@.last() == pushed.last());
            assert(pushed == old(self).logs@.push(pushed.last()));
        }
    }
}

/// The label of a board in the boards pane: its name and ` [SDO]`.
pub open spec fn board_label(name: Seq<char>) -> Seq<char> {
    name + seq![' ', '[', 'S', 'D', 'O', ']']
}

/// The leading run of characters of `s` that are not white space.
pub open spec fn leading_word(s: Seq<char>) -> Seq<char>
    decreases s.len(),
{
    if s.len() == 0 || is_space(s[0]) {
        Seq::empty()
    } else {
        seq![s[0]] + leading_word(s.drop_first())
    }
}

/// The first white-space separated word of `s` (`split_whitespace().next()`),
/// or `s` itself when it has none.
pub open spec fn first_word(s: Seq<char>) -> Seq<char> {
    let t = trim_start(s);
    if t.len() == 0 {
        s
    } else {
        leading_word(t)
    }
}

/// Whether a board name passes the board filter.
pub open spec fn passes_board_filter(filter: Option<String>, name: Seq<char>) -> bool {
    match filter {
        Some(f) => f@ == name,
        None => true,
    }
}

/// Whether a variable name passes the search filter: an empty search passes
/// everything, else the name must contain it, ignoring ASCII case.
pub open spec fn passes_search_filter(search: Seq<char>, name: Seq<char>) -> bool {
    search.len() == 0 || contains_text(ascii_lower_text(name), ascii_lower_text(search))
}

/// The position of the cached value of variable `var_id` of board `board`.
pub open spec fn cache_position(cache: Seq<CachedValue>, board: Seq<char>, var_id: u16) -> Option<int>
    decreases cache.len(),
{
    if cache.len() == 0 {
        None
    } else {
        match cache_position(cache.drop_last(), board, var_id) {
            Some(i) => Some(i),
            None => if cache.last().board@ == board && cache.last().var_id == var_id {
                Some(cache.len() - 1)
            } else {
                None
            },
        }
    }
}

/// The cached value of variable `var_id` of board `board`, if any.
pub open spec fn cached_value(cache: Seq<CachedValue>, board: Seq<char>, var_id: u16) -> Option<Value> {
    match cache_position(cache, board, var_id) {
        Some(i) => Some(cache[i].value),
        None => None,
    }
}

/// The time the cached value of variable `var_id` of board `board` arrived,
/// if there is one.
pub open spec fn cached_time(cache: Seq<CachedValue>, board: Seq<char>, var_id: u16) -> Option<Instant> {
    match cache_position(cache, board, var_id) {
        Some(i) => Some(cache[i].updated_at),
        None => None,
    }
}

/// Every cached value but that of variable `var_id` of board `board` is
/// the same in `new` as in `old`, with the same arrival time.
pub open spec fn others_kept(old: Seq<CachedValue>, new: Seq<CachedValue>, board: Seq<char>, var_id: u16) -> bool {
    forall|b: Seq<char>, v: u16|
        !(b == board && v == var_id) ==> #[trigger] cached_value(new, b, v) == cached_value(old, b, v)
            && cached_time(new, b, v) == cached_time(old, b, v)
}

proof fn lemma_cache_position_prefix(cache: Seq<CachedValue>, board: Seq<char>, var_id: u16, i: int)
    requires
        0 <= i <= cache.len(),
        forall|j: int|
            0 <= j < i ==> !(#[trigger] cache[j].board@ == board && cache[j].var_id == var_id),
    ensures
        cache_position(cache.subrange(0, i), board, var_id) is None,
    decreases i,
{
    if i > 0 {
        assert(cache.subrange(0, i).drop_last() == cache.subrange(0, i - 1));
        lemma_cache_position_prefix(cache, board, var_id, i - 1);
    }
}

proof fn lemma_cache_position_extend(cache: Seq<CachedValue>, board: Seq<char>, var_id: u16, i: int)
    requires
        0 <= i <= cache.len(),
        cache_position(cache.subrange(0, i), board, var_id) is Some,
    ensures
        cache_position(cache, board, var_id) == cache_position(cache.subrange(0, i), board, var_id),
    decreases cache.len() - i,
{
    if i < cache.len() {
        assert(cache.subrange(0, i + 1).drop_last() == cache.subrange(0, i));
        lemma_cache_position_extend(cache, board, var_id, i + 1);
    } else {
        assert(cache.subrange(0, i) == cache);
    }
}

/// Finds the cached value of variable `var_id` of board `board`.
pub fn find_cached(cache: &Vec<CachedValue>, board: &str, var_id: u16) -> (found: Option<usize>)
    ensures
        match found {
            Some(i) => i < cache@.len() && cache_position(cache@, board@, var_id) == Some(i as int),
            None => cache_position(cache@, board@, var_id) is None,
        },
{
    let mut i: usize = 0;
    while i < cache.len()
        invariant
            i <= cache@.len(),
            forall|j: int|
                0 <= j < i ==> !(#[trigger] cache@[j].board@ == board@ && cache@[j].var_id == var_id),
        decreases cache.len() - i,
    {
        if cache[i].var_id == var_id && same_text(cache[i].board.as_str(), board) {
            proof {
                lemma_cache_position_prefix(cache@, board@, var_id, i as int);
                assert(cache@.subrange(0, i + 1).drop_last() == cache@.subrange(0, i as int));
                lemma_cache_position_extend(cache@, board@, var_id, i + 1);
            }
            return Some(i);
        }
        i = i + 1;
    }
    proof {
        lemma_cache_position_prefix(cache@, board@, var_id, cache@.len() as int);
        assert(cache@.subrange(0, cache@.len() as int) == cache@);
    }
    None
}

/// Records `value` for variable `var_id` of board `board`: afterwards the
/// cache gives `value` for that variable and what it gave before for every
/// other one.
pub fn store_value(cache: &mut Vec<CachedValue>, board: &str, var_id: u16, value: Value)
    ensures
        cached_value(final(cache)@, board@, var_id) == Some(value),
        others_kept(old(cache)@, final(cache)@, board@, var_id),
{
    let at = now();
    match find_cached(cache, board, var_id) {
        Some(i) => {
            let ghost before = cache@;
            proof {
                lemma_cache_position_valid(before, board@, var_id);
            }
            let entry = CachedValue { board: board.to_string(), var_id, value, updated_at: at };
            cache.set(i, entry);
            proof {
                assert forall|b: Seq<char>, v: u16|
                    !(b == board@ && v == var_id) implies #[trigger] cached_value(cache@, b, v)
                    == cached_value(before, b, v) && cached_time(cache@, b, v) == cached_time(before, b, v) by {
                    lemma_cache_update_other(before, i as int, entry, b, v);
                }
                lemma_cache_update_same(before, i as int, entry);
            }
        },
        None => {
            let ghost before = cache@;
            let entry = CachedValue { board: board.to_string(), var_id, value, updated_at: at };
            cache.push(entry);
            proof {
                assert(cache@.drop_last() == before);
                assert forall|b: Seq<char>, v: u16|
                    !(b == board@ && v == var_id) implies #[trigger] cached_value(cache@, b, v)
                    == cached_value(before, b, v) && cached_time(cache@, b, v) == cached_time(before, b, v) by {
                    lemma_cache_position_valid(before, b, v);
                    assert(cache_position(cache@, b, v) == cache_position(before, b, v));
                    if let Some(p) = cache_position(before, b, v) {
                        assert(cache@[p] == before[p]);
                    }
                }
                assert(cache_position(cache@, board@, var_id) == Some(before.len() as int));
            }
        },
    }
}

proof fn lemma_cache_position_valid(cache: Seq<CachedValue>, board: Seq<char>, var_id: u16)
    ensures
        cache_position(cache, board, var_id) matches Some(p) ==> 0 <= p < cache.len()
            && cache[p].board@ == board && cache[p].var_id == var_id,
    decreases cache.len(),
{
    if cache.len() > 0 {
        lemma_cache_position_valid(cache.drop_last(), board, var_id);
    }
}

proof fn lemma_cache_update_other(cache: Seq<CachedValue>, i: int, entry: CachedValue, b: Seq<char>, v: u16)
    requires
        0 <= i < cache.len(),
        cache[i].board@ == entry.board@,
        cache[i].var_id == entry.var_id,
        !(b == entry.board@ && v == entry.var_id),
    ensures
        cached_value(cache.update(i, entry), b, v) == cached_value(cache, b, v),
        cached_time(cache.update(i, entry), b, v) == cached_time(cache, b, v),
        cache_position(cache.update(i, entry), b, v) == cache_position(cache, b, v),
    decreases cache.len(),
{
    let updated = cache.update(i, entry);
    if i < cache.len() - 1 {
        assert(updated.drop_last() == cache.drop_last().update(i, entry));
        lemma_cache_update_other(cache.drop_last(), i, entry, b, v);
    } else {
        assert(updated.drop_last() == cache.drop_last());
    }
    lemma_cache_position_valid(cache, b, v);
    if let Some(p) = cache_position(cache, b, v) {
        assert(p != i);
        assert(updated[p] == cache[p]);
    }
}

proof fn lemma_cache_update_same(cache: Seq<CachedValue>, i: int, entry: CachedValue)
    requires
        0 <= i < cache.len(),
        cache[i].board@ == entry.board@,
        cache[i].var_id == entry.var_id,
        cache_position(cache, entry.board@, entry.var_id) == Some(i),
    ensures
        cache_position(cache.update(i, entry), entry.board@, entry.var_id) == Some(i),
    decreases cache.len(),
{
    let updated = cache.update(i, entry);
    if i < cache.len() - 1 {
        assert(updated.drop_last() == cache.drop_last().update(i, entry));
        lemma_cache_update_same(cache.drop_last(), i, entry);
    } else {
        assert(updated.drop_last() == cache.drop_last());
    }
}

proof fn lemma_leading_word(s: Seq<char>, k: int)
    requires
        0 <= k <= s.len(),
        forall|j: int| 0 <= j < k ==> !is_space(#[trigger] s[j]),
        k == s.len() || is_space(s[k]),
    ensures
        leading_word(s) == s.subrange(0, k),
    decreases k,
{
    if k > 0 {
        lemma_leading_word(s.drop_first(), k - 1);
        assert(s.subrange(0, k) == seq![s[0]] + s.drop_first().subrange(0, k - 1));
    } else {
        assert(s.subrange(0, 0) == Seq::<char>::empty());
    }
}

/// The first white-space separated word of `s`, or `s` when it has none.
pub fn first_word_of(s: &str) -> (word: String)
    ensures
        word@ == first_word(s@),
{
    let chars = chars_of(s);
    let mut start: usize = 0;
    while start < chars.len() && is_whitespace(chars[start])
        invariant
            chars@ == s@,
            start <= chars@.len(),
            forall|j: int| 0 <= j < start ==> is_space(#[trigger] chars@[j]),
        decreases chars.len() - start,
    {
        start = start + 1;
    }
    proof {
        lemma_trim_start_suffix(chars@, start as int);
        assert(chars@.subrange(0, chars@.len() as int) == chars@);
        let rest = chars@.subrange(start as int, chars@.len() as int);
        if rest.len() > 0 {
            assert(!is_space(rest[0]));
        }
        assert(trim_start(rest) == rest);
    }
    if start == chars.len() {
        return string_of(&chars, 0, chars.len());
    }
    let mut end = start;
    while end < chars.len() && !is_whitespace(chars[end])
        invariant
            chars@ == s@,
            start <= end <= chars@.len(),
            forall|j: int| start <= j < end ==> !is_space(#[trigger] chars@[j]),
        decreases chars.len() - end,
    {
        end = end + 1;
    }
    proof {
        let rest = chars@.subrange(start as int, chars@.len() as int);
        assert forall|j: int| 0 <= j < end - start implies !is_space(#[trigger] rest[j]) by {
            assert(rest[j] == chars@[start + j]);
        }
        if end < chars.len() {
            assert(rest[end - start] == chars@[end as int]);
        }
        lemma_leading_word(rest, end - start);
        assert(rest.subrange(0, end - start) == chars@.subrange(start as int, end as int));
    }
    string_of(&chars, start, end)
}

impl App {
    /// The labels of the boards pane, one per board in database order.
    pub fn board_labels(&self) -> (labels: Vec<String>)
        ensures
            labels@.len() == self.database.sdo_boards@.len(),
            forall|i: int|
                0 <= i < labels@.len() ==> #[trigger] labels@[i]@ == board_label(
                    self.database.sdo_boards@[i].name@,
                ),
    {
        let boards = &self.database.sdo_boards;
        let mut labels: Vec<String> = Vec::new();
        let mut i: usize = 0;
        while i < boards.len()
            invariant
                boards@ == self.database.sdo_boards@,
                i <= boards@.len(),
                labels@.len() == i,
                forall|j: int|
                    0 <= j < i ==> #[trigger] labels@[j]@ == board_label(boards@[j].name@),
            decreases boards.len() - i,
        {
            let mut label = boards[i].name.clone();
            push_str(&mut label, " [SDO]");
            proof {
                reveal_strlit(" [SDO]");
                assert(" [SDO]"@ == seq![' ', '[', 'S', 'D', 'O', ']']);
            }
            labels.push(label);
            i = i + 1;
        }
        labels
    }

    /// The name shown for the selected board: the first word of its label.
    pub fn selected_board_name(&self) -> (name: Option<String>)
        ensures
            match name {
                Some(n) => self.board_index < self.database.sdo_boards@.len() && n@ == first_word(
                    board_label(self.database.sdo_boards@[self.board_index as int].name@),
                ),
                None => self.board_index >= self.database.sdo_boards@.len(),
            },
    {
        let labels = self.board_labels();
        if self.board_index < labels.len() {
            Some(first_word_of(labels[self.board_index].as_str()))
        } else {
            None
        }
    }

    /// Moves the focus to the next pane.
    pub fn focus_next_pane(&mut self)
        ensures
            *final(self) == (App { pane: next_pane(old(self).pane), ..*old(self) }),
    {
        self.pane = match self.pane {
            Pane::Boards => Pane::Variables,
            Pane::Variables => Pane::Log,
            Pane::Log => Pane::Boards,
        };
    }

    /// Moves the focus to the previous pane.
    pub fn focus_prev_pane(&mut self)
        ensures
            *final(self) == (App { pane: prev_pane(old(self).pane), ..*old(self) }),
    {
        self.pane = match self.pane {
            Pane::Boards => Pane::Log,
            Pane::Variables => Pane::Boards,
            Pane::Log => Pane::Variables,
        };
    }

    /// Sorts by the next column and logs `sort: campo <column>`.
    pub fn cycle_sort_field(&mut self)
        ensures
            ui_state(*final(self)) == (UiView { sort_field: next_sort_field(old(self).sort_field), ..ui_state(*old(self)) }),
            final(self).database == old(self).database,
            final(self).runtime == old(self).runtime,
            final(self).dbcc == old(self).dbcc,
            final(self).transport_error == old(self).transport_error,
            final(self).sdo_values == old(self).sdo_values,
            final(self).last_status@ == seq!['c', 'a', 'm', 'p', 'o', ' '] + sort_field_name(next_sort_field(old(self).sort_field)),
            log_grown(old(self).logs@, final(self).logs@, (seq!['s', 'o', 'r', 't'], seq!['c', 'a', 'm', 'p', 'o', ' '] + sort_field_name(
                    next_sort_field(old(self).sort_field),
                )),
            ),
    {
        self.sort_field = match self.sort_field {
            SortField::Board => SortField::Variable,
            SortField::Variable => SortField::VarId,
            SortField::VarId => SortField::Type,
            SortField::Type => SortField::Board,
        };
        let mut detail = owned("campo ");
        let name = match self.sort_field {
            SortField::Board => "Board",
            SortField::Variable => "Variable",
            SortField::VarId => "VarId",
            SortField::Type => "Type",
        };
        push_str(&mut detail, name);
        proof {
            reveal_strlit("campo ");
            reveal_strlit("Board");
            reveal_strlit("Variable");
            reveal_strlit("VarId");
            reveal_strlit("Type");
            reveal_strlit("sort");
            assert("campo "@ == seq!['c', 'a', 'm', 'p', 'o', ' ']);
            assert("sort"@ == seq!['s', 'o', 'r', 't']);
            assert("Board"@ == sort_field_name(SortField::Board));
            assert("Variable"@ == sort_field_name(SortField::Variable));
            assert("VarId"@ == sort_field_name(SortField::VarId));
            assert("Type"@ == sort_field_name(SortField::Type));
        }
        self.push_status(owned("sort"), detail);
    }

    /// Reverses the sort and logs `sort: direzione <direction>`.
    pub fn toggle_sort_direction(&mut self)
        ensures
            ui_state(*final(self)) == (UiView { sort_direction: other_direction(old(self).sort_direction), ..ui_state(*old(self)) }),
            final(self).database == old(self).database,
            final(self).runtime == old(self).runtime,
            final(self).dbcc == old(self).dbcc,
            final(self).transport_error == old(self).transport_error,
            final(self).sdo_values == old(self).sdo_values,
            final(self).last_status@ == seq!['d', 'i', 'r', 'e', 'z', 'i', 'o', 'n', 'e', ' '] + direction_name(other_direction(old(self).sort_direction)),
            log_grown(old(self).logs@, final(self).logs@, (seq!['s', 'o', 'r', 't'], seq!['d', 'i', 'r', 'e', 'z', 'i', 'o', 'n', 'e', ' ']
                    + direction_name(other_direction(old(self).sort_direction))),
            ),
    {
        self.sort_direction = match self.sort_direction {
            SortDirection::Asc => SortDirection::Desc,
            SortDirection::Desc => SortDirection::Asc,
        };
        let mut detail = owned("direzione ");
        let name = match self.sort_direction {
            SortDirection::Asc => "Asc",
            SortDirection::Desc => "Desc",
        };
        push_str(&mut detail, name);
        proof {
            reveal_strlit("direzione ");
            reveal_strlit("Asc");
            reveal_strlit("Desc");
            reveal_strlit("sort");
            assert("direzione "@ == seq!['d', 'i', 'r', 'e', 'z', 'i', 'o', 'n', 'e', ' ']);
            assert("sort"@ == seq!['s', 'o', 'r', 't']);
            assert("Asc"@ == direction_name(SortDirection::Asc));
            assert("Desc"@ == direction_name(SortDirection::Desc));
        }
        self.push_status(owned("sort"), detail);
    }

    /// Whether a board passes the board filter.
    pub fn matches_board_filter(&self, board_name: &str) -> (passes: bool)
        ensures
            passes == passes_board_filter(self.board_filter, board_name@),
    {
        match &self.board_filter {
            Some(filter) => same_text(filter.as_str(), board_name),
            None => true,
        }
    }

    /// Whether a variable passes the search filter.
    pub fn matches_search_filter(&self, variable_name: &str) -> (passes: bool)
        ensures
            passes == passes_search_filter(self.search_filter@, variable_name@),
    {
        let search = chars_of(self.search_filter.as_str());
        if search.len() == 0 {
            return true;
        }
        let haystack = lower_chars(variable_name);
        let needle = lower_chars(self.search_filter.as_str());
        contains_chars(&haystack, &needle)
    }
}

/// A row of the variables table.
#[derive(Debug)]
pub struct VariableRow {
    pub board: String,
    pub var_id: u16,
    pub name: String,
    pub storage: ValueStorage,
    pub unit: Option<String>,
    pub value: Option<Value>,
    pub updated_at: Option<Instant>,
}

/// What a row shows, but for the time of its value.
pub struct RowView {
    pub board: Seq<char>,
    pub var_id: u16,
    pub name: Seq<char>,
    pub storage: ValueStorage,
    pub unit: Option<Seq<char>>,
    pub value: Option<Value>,
}

impl View for VariableRow {
    type V = RowView;

    open spec fn view(&self) -> RowView {
        RowView {
            board: self.board@,
            var_id: self.var_id,
            name: self.name@,
            storage: self.storage,
            unit: opt_text(self.unit),
            value: self.value,
        }
    }
}

/// The views of a sequence of rows.
pub open spec fn row_views(rows: Seq<VariableRow>) -> Seq<RowView> {
    rows.map_values(|r: VariableRow| r@)
}

/// The row of a variable of a board, with its cached value.
pub open spec fn spec_row(board: SdoBoardDef, variable: SdoVariableDef, cache: Seq<CachedValue>) -> RowView {
    RowView {
        board: board.name@,
        var_id: variable.id,
        name: variable.name@,
        storage: variable.storage,
        unit: opt_text(variable.unit),
        value: cached_value(cache, board.name@, variable.id),
    }
}

/// The rows of the variables of `board` that pass the search filter.
pub open spec fn board_rows(board: SdoBoardDef, variables: Seq<SdoVariableDef>, search: Seq<char>, cache: Seq<CachedValue>) -> Seq<RowView>
    decreases variables.len(),
{
    if variables.len() == 0 {
        Seq::empty()
    } else {
        let prev = board_rows(board, variables.drop_last(), search, cache);
        if passes_search_filter(search, variables.last().name@) {
            prev.push(spec_row(board, variables.last(), cache))
        } else {
            prev
        }
    }
}

/// The rows of the boards that pass the board filter, in database order.
pub open spec fn filtered_rows(boards: Seq<SdoBoardDef>, filter: Option<String>, search: Seq<char>, cache: Seq<CachedValue>) -> Seq<RowView>
    decreases boards.len(),
{
    if boards.len() == 0 {
        Seq::empty()
    } else {
        let prev = filtered_rows(boards.drop_last(), filter, search, cache);
        if passes_board_filter(filter, boards.last().name@) {
            prev + board_rows(boards.last(), boards.last().variables@, search, cache)
        } else {
            prev
        }
    }
}

/// The order of rows by a column, ties broken by a second column: board
/// then id, variable then board, id then board, or type tag then board.
pub open spec fn row_lt(field: SortField, a: RowView, b: RowView) -> bool {
    match field {
        SortField::Board => text_lt(a.board, b.board) || (a.board == b.board && a.var_id < b.var_id),
        SortField::Variable => text_lt(a.name, b.name) || (a.name == b.name && text_lt(a.board, b.board)),
        SortField::VarId => a.var_id < b.var_id || (a.var_id == b.var_id && text_lt(a.board, b.board)),
        SortField::Type => text_lt(spec_storage_tag(a.storage), spec_storage_tag(b.storage)) || (
        spec_storage_tag(a.storage) == spec_storage_tag(b.storage) && text_lt(a.board, b.board)),
    }
}

/// `a` comes strictly before `b` in the table's order.
pub open spec fn row_before(field: SortField, direction: SortDirection, a: RowView, b: RowView) -> bool {
    match direction {
        SortDirection::Asc => row_lt(field, a, b),
        SortDirection::Desc => row_lt(field, b, a),
    }
}

/// Rows in the table's order (rows that tie in any order).
pub open spec fn rows_sorted(field: SortField, direction: SortDirection, rows: Seq<RowView>) -> bool {
    forall|i: int, j: int| 0 <= i < j < rows.len() ==> !row_before(field, direction, rows[j], rows[i])
}

/// Where an insertion puts `x` into `sorted`: before the first row that `x`
/// comes strictly before, so that rows that tie keep their order.
pub open spec fn insert_position(field: SortField, direction: SortDirection, sorted: Seq<RowView>, x: RowView) -> int
    decreases sorted.len(),
{
    if sorted.len() == 0 {
        0
    } else if row_before(field, direction, x, sorted[0]) {
        0
    } else {
        1 + insert_position(field, direction, sorted.drop_first(), x)
    }
}

/// The rows in the table's order: a stable sort, in which rows that tie
/// keep the order they came in.
pub open spec fn sorted_rows(field: SortField, direction: SortDirection, rows: Seq<RowView>) -> Seq<RowView>
    decreases rows.len(),
{
    if rows.len() == 0 {
        Seq::empty()
    } else {
        let sorted = sorted_rows(field, direction, rows.drop_last());
        sorted.insert(insert_position(field, direction, sorted, rows.last()), rows.last())
    }
}

proof fn lemma_insert_position(field: SortField, direction: SortDirection, sorted: Seq<RowView>, x: RowView, p: int)
    requires
        0 <= p <= sorted.len(),
        forall|j: int| 0 <= j < p ==> !row_before(field, direction, x, #[trigger] sorted[j]),
        p == sorted.len() || row_before(field, direction, x, sorted[p]),
    ensures
        insert_position(field, direction, sorted, x) == p,
    decreases p,
{
    if p > 0 {
        let rest = sorted.drop_first();
        assert forall|j: int| 0 <= j < p - 1 implies !row_before(field, direction, x, #[trigger] rest[j]) by {
            assert(rest[j] == sorted[j + 1]);
        }
        if p < sorted.len() {
            assert(rest[p - 1] == sorted[p]);
        }
        lemma_insert_position(field, direction, rest, x, p - 1);
    }
}

proof fn lemma_row_lt_transitive(field: SortField, a: RowView, b: RowView, c: RowView)
    requires
        row_lt(field, a, b),
        row_lt(field, b, c),
    ensures
        row_lt(field, a, c),
{
    let ta = spec_storage_tag(a.storage);
    let tb = spec_storage_tag(b.storage);
    let tc = spec_storage_tag(c.storage);
    if text_lt(a.board, b.board) && text_lt(b.board, c.board) {
        lemma_text_lt_transitive(a.board, b.board, c.board);
    }
    if text_lt(a.name, b.name) && text_lt(b.name, c.name) {
        lemma_text_lt_transitive(a.name, b.name, c.name);
    }
    if text_lt(ta, tb) && text_lt(tb, tc) {
        lemma_text_lt_transitive(ta, tb, tc);
    }
}

proof fn lemma_row_lt_asymmetric(field: SortField, a: RowView, b: RowView)
    requires
        row_lt(field, a, b),
    ensures
        !row_lt(field, b, a),
{
    let ta = spec_storage_tag(a.storage);
    let tb = spec_storage_tag(b.storage);
    lemma_text_lt_irreflexive(a.board);
    lemma_text_lt_irreflexive(a.name);
    lemma_text_lt_irreflexive(ta);
    if text_lt(a.board, b.board) {
        lemma_text_lt_asymmetric(a.board, b.board);
    }
    if text_lt(b.board, a.board) {
        lemma_text_lt_asymmetric(b.board, a.board);
    }
    if text_lt(a.name, b.name) {
        lemma_text_lt_asymmetric(a.name, b.name);
    }
    if text_lt(ta, tb) {
        lemma_text_lt_asymmetric(ta, tb);
    }
}

proof fn lemma_row_before_transitive(field: SortField, direction: SortDirection, a: RowView, b: RowView, c: RowView)
    requires
        row_before(field, direction, a, b),
        row_before(field, direction, b, c),
    ensures
        row_before(field, direction, a, c),
{
    match direction {
        SortDirection::Asc => lemma_row_lt_transitive(field, a, b, c),
        SortDirection::Desc => lemma_row_lt_transitive(field, c, b, a),
    }
}

proof fn lemma_row_before_asymmetric(field: SortField, direction: SortDirection, a: RowView, b: RowView)
    requires
        row_before(field, direction, a, b),
    ensures
        !row_before(field, direction, b, a),
{
    match direction {
        SortDirection::Asc => lemma_row_lt_asymmetric(field, a, b),
        SortDirection::Desc => lemma_row_lt_asymmetric(field, b, a),
    }
}

/// Whether `a` comes strictly before `b` in the order by `field` (ties
/// broken as `row_lt` says).
fn row_less(field: SortField, a: &VariableRow, b: &VariableRow) -> (less: bool)
    ensures
        less == row_lt(field, a@, b@),
{
    match field {
        SortField::Board => match compare_text(a.board.as_str(), b.board.as_str()) {
            TextOrder::Less => true,
            TextOrder::Equal => a.var_id < b.var_id,
            TextOrder::Greater => {
                proof {
                    lemma_text_lt_asymmetric(b.board@, a.board@);
                }
                false
            },
        },
        SortField::Variable => match compare_text(a.name.as_str(), b.name.as_str()) {
            TextOrder::Less => true,
            TextOrder::Equal => {
                proof {
                    lemma_text_lt_irreflexive(a.name@);
                }
                compare_text(a.board.as_str(), b.board.as_str()) == TextOrder::Less
            },
            TextOrder::Greater => {
                proof {
                    lemma_text_lt_asymmetric(b.name@, a.name@);
                }
                false
            },
        },
        SortField::VarId => if a.var_id < b.var_id {
            true
        } else if a.var_id == b.var_id {
            compare_text(a.board.as_str(), b.board.as_str()) == TextOrder::Less
        } else {
            false
        },
        SortField::Type => {
            let ta = storage_tag(a.storage);
            let tb = storage_tag(b.storage);
            match compare_text(ta.as_str(), tb.as_str()) {
                TextOrder::Less => true,
                TextOrder::Equal => {
                    proof {
                        lemma_text_lt_irreflexive(ta@);
                    }
                    compare_text(a.board.as_str(), b.board.as_str()) == TextOrder::Less
                },
                TextOrder::Greater => {
                    proof {
                        lemma_text_lt_asymmetric(tb@, ta@);
                    }
                    false
                },
            }
        },
    }
}

/// Whether `a` comes strictly before `b` in the table's order.
fn row_first(field: SortField, direction: SortDirection, a: &VariableRow, b: &VariableRow) -> (first: bool)
    ensures
        first == row_before(field, direction, a@, b@),
{
    match direction {
        SortDirection::Asc => row_less(field, a, b),
        SortDirection::Desc => row_less(field, b, a),
    }
}

/// The rows in the table's order (a stable sort).
pub fn sort_rows(rows: Vec<VariableRow>, field: SortField, direction: SortDirection) -> (sorted: Vec<VariableRow>)
    ensures
        row_views(sorted@) == sorted_rows(field, direction, row_views(rows@)),
        rows_sorted(field, direction, row_views(sorted@)),
        row_views(sorted@).to_multiset() == row_views(rows@).to_multiset(),
        forall|i: int| 0 <= i < sorted@.len() ==> rows@.contains(#[trigger] sorted@[i]),
{
    broadcast use vstd::seq_lib::group_to_multiset_ensures;

    let ghost input = rows@;
    let count = rows.len();
    assert(input.len() == count);
    let mut rest = rows;
    let mut out: Vec<VariableRow> = Vec::new();
    let mut taken: usize = 0;
    while rest.len() > 0
        invariant
            input.len() <= usize::MAX,
            taken + rest@.len() == input.len(),
            rest@ == input.subrange(taken as int, input.len() as int),
            rows_sorted(field, direction, row_views(out@)),
            row_views(out@).to_multiset() == row_views(input.subrange(0, taken as int)).to_multiset(),
            row_views(out@) == sorted_rows(field, direction, row_views(input.subrange(0, taken as int))),
            forall|i: int| 0 <= i < out@.len() ==> input.contains(#[trigger] out@[i]),
        decreases rest.len(),
    {
        let x = rest.remove(0);
        let mut pos: usize = 0;
        while pos < out.len() && !row_first(field, direction, &x, &out[pos])
            invariant
                pos <= out@.len(),
                forall|j: int| 0 <= j < pos ==> !row_before(field, direction, x@, #[trigger] out@[j]@),
            decreases out.len() - pos,
        {
            pos = pos + 1;
        }
        let ghost before = out@;
        out.insert(pos, x);
        proof {
            assert forall|i: int| 0 <= i < out@.len() implies input.contains(#[trigger] out@[i]) by {
                if i < pos {
                    assert(out@[i] == before[i]);
                } else if i == pos {
                    assert(out@[i] == input[taken as int]);
                } else {
                    assert(out@[i] == before[i - 1]);
                }
            }
            let vb = row_views(before);
            let va = row_views(out@);
            assert(va == vb.insert(pos as int, x@));
            vstd::seq_lib::to_multiset_insert(vb, pos as int, x@);
            assert(x == input[taken as int]);
            assert(row_views(input.subrange(0, taken + 1)) == row_views(
                input.subrange(0, taken as int),
            ).push(x@));
            vstd::seq_lib::to_multiset_build(row_views(input.subrange(0, taken as int)), x@);
            assert forall|a: int, b: int| 0 <= a < b < va.len() implies !row_before(
                field,
                direction,
                va[b],
                va[a],
            ) by {
                if a < pos && b == pos {
                } else if a == pos && b > pos {
                    if row_before(field, direction, va[b], x@) {
                        assert(row_before(field, direction, x@, vb[pos as int]));
                        lemma_row_before_transitive(field, direction, va[b], x@, vb[pos as int]);
                        assert(va[b] == vb[b - 1]);
                        if b - 1 > pos {
                            assert(!row_before(field, direction, vb[b - 1], vb[pos as int]));
                        } else {
                            lemma_row_before_asymmetric(field, direction, x@, vb[pos as int]);
                        }
                    }
                } else if a < pos && b > pos {
                    assert(va[a] == vb[a]);
                    assert(va[b] == vb[b - 1]);
                } else if b < pos {
                } else {
                    assert(va[a] == vb[a - 1]);
                    assert(va[b] == vb[b - 1]);
                }
            }
            assert(rest@ == input.subrange(taken + 1, input.len() as int));
            if pos < before.len() {
                assert(row_before(field, direction, x@, vb[pos as int]));
            }
            assert forall|j: int| 0 <= j < pos implies !row_before(field, direction, x@, #[trigger] vb[j]) by {
                assert(vb[j] == before[j]@);
            }
            lemma_insert_position(field, direction, vb, x@, pos as int);
            let grown = row_views(input.subrange(0, taken + 1));
            assert(grown.drop_last() == row_views(input.subrange(0, taken as int)));
            assert(grown.last() == x@);
        }
        taken = taken + 1;
    }
    assert(input.subrange(0, input.len() as int) == input);
    out
}

impl App {
    /// The cached value of variable `var_id` of board `board`, with the time
    /// it arrived.
    pub fn lookup_sdo_value(&self, board: &str, var_id: u16) -> (found: Option<(Value, Instant)>)
        ensures
            match found {
                Some(entry) => cached_value(self.sdo_values@, board@, var_id) == Some(entry.0)
                    && cached_time(self.sdo_values@, board@, var_id) == Some(entry.1),
                None => cached_value(self.sdo_values@, board@, var_id) is None,
            },
    {
        match find_cached(&self.sdo_values, board, var_id) {
            Some(i) => Some((self.sdo_values[i].value, self.sdo_values[i].updated_at)),
            None => None,
        }
    }

    /// Records `value` for variable `var_id` of board `board`.
    pub fn store_sdo_value(&mut self, board: &str, var_id: u16, value: Value)
        ensures
            cached_value(final(self).sdo_values@, board@, var_id) == Some(value),
            others_kept(old(self).sdo_values@, final(self).sdo_values@, board@, var_id),
            *final(self) == (App { sdo_values: final(self).sdo_values, ..*old(self) }),
    {
        store_value(&mut self.sdo_values, board, var_id, value);
    }

    /// The rows of the table: the variables of the boards that pass the
    /// board filter and pass the search filter, with their cached values, in
    /// the order of the sort column and direction.
    pub fn visible_rows(&self) -> (rows: Vec<VariableRow>)
        ensures
            row_views(rows@) == self.table(),
            rows_sorted(self.sort_field, self.sort_direction, row_views(rows@)),
            row_views(rows@).to_multiset() == filtered_rows(
                self.database.sdo_boards@,
                self.board_filter,
                self.search_filter@,
                self.sdo_values@,
            ).to_multiset(),
            forall|i: int|
                0 <= i < rows@.len() ==> (#[trigger] rows@[i]).updated_at == cached_time(
                    self.sdo_values@,
                    rows@[i].board@,
                    rows@[i].var_id,
                ),
    {
        let boards = &self.database.sdo_boards;
        let ghost filter = self.board_filter;
        let ghost search = self.search_filter@;
        let ghost cache = self.sdo_values@;
        let mut rows: Vec<VariableRow> = Vec::new();
        let mut i: usize = 0;
        while i < boards.len()
            invariant
                boards@ == self.database.sdo_boards@,
                filter == self.board_filter,
                search == self.search_filter@,
                cache == self.sdo_values@,
                i <= boards@.len(),
                row_views(rows@) == filtered_rows(boards@.subrange(0, i as int), filter, search, cache),
                forall|j: int|
                    0 <= j < rows@.len() ==> (#[trigger] rows@[j]).updated_at == cached_time(
                        cache,
                        rows@[j].board@,
                        rows@[j].var_id,
                    ),
            decreases boards.len() - i,
        {
            let board = &boards[i];
            let ghost prefix = boards@.subrange(0, i + 1);
            assert(prefix.drop_last() == boards@.subrange(0, i as int));
            assert(prefix.last() == *board);
            if self.matches_board_filter(board.name.as_str()) {
                let ghost base = row_views(rows@);
                let variables = &board.variables;
                let mut k: usize = 0;
                while k < variables.len()
                    invariant
                        variables@ == board.variables@,
                        search == self.search_filter@,
                        cache == self.sdo_values@,
                        k <= variables@.len(),
                        row_views(rows@) == base + board_rows(
                            *board,
                            variables@.subrange(0, k as int),
                            search,
                            cache,
                        ),
                        forall|j: int|
                            0 <= j < rows@.len() ==> (#[trigger] rows@[j]).updated_at == cached_time(
                                cache,
                                rows@[j].board@,
                                rows@[j].var_id,
                            ),
                    decreases variables.len() - k,
                {
                    let variable = &variables[k];
                    let ghost vprefix = variables@.subrange(0, k + 1);
                    assert(vprefix.drop_last() == variables@.subrange(0, k as int));
                    assert(vprefix.last() == *variable);
                    if self.matches_search_filter(variable.name.as_str()) {
                        let cached = self.lookup_sdo_value(board.name.as_str(), variable.id);
                        let (value, updated_at) = match cached {
                            Some((v, t)) => (Some(v), Some(t)),
                            None => (None, None),
                        };
                        let row = VariableRow {
                            board: board.name.clone(),
                            var_id: variable.id,
                            name: variable.name.clone(),
                            storage: variable.storage,
                            unit: clone_opt_string(&variable.unit),
                            value,
                            updated_at,
                        };
                        let ghost before = row_views(rows@);
                        let ghost old_rows = rows@;
                        rows.push(row);
                        assert(row_views(rows@) == before.push(row@));
                        assert forall|j: int|
                            0 <= j < rows@.len() implies (#[trigger] rows@[j]).updated_at == cached_time(
                            cache,
                            rows@[j].board@,
                            rows@[j].var_id,
                        ) by {
                            if j < old_rows.len() {
                                assert(rows@[j] == old_rows[j]);
                            }
                        }
                        assert(row@ == spec_row(*board, *variable, cache));
                    }
                    k = k + 1;
                }
                assert(variables@.subrange(0, variables@.len() as int) == variables@);
            }
            i = i + 1;
        }
        assert(boards@.subrange(0, boards@.len() as int) == boards@);
        let ghost unsorted = rows@;
        let sorted = sort_rows(rows, self.sort_field, self.sort_direction);
        assert forall|i: int|
            0 <= i < sorted@.len() implies (#[trigger] sorted@[i]).updated_at == cached_time(
            self.sdo_values@,
            sorted@[i].board@,
            sorted@[i].var_id,
        ) by {
            assert(unsorted.contains(sorted@[i]));
        }
        sorted
    }

    /// The rows of the table, in its order.
    pub open spec fn table(&self) -> Seq<RowView> {
        sorted_rows(
            self.sort_field,
            self.sort_direction,
            filtered_rows(self.database.sdo_boards@, self.board_filter, self.search_filter@, self.sdo_values@),
        )
    }

    /// The row under the cursor of the variables pane, if the cursor is on
    /// a row.
    pub fn selected_row(&self) -> (row: Option<VariableRow>)
        ensures
            match row {
                Some(r) => self.variable_index < self.table().len() && r@ == self.table()[self.variable_index as int],
                None => self.variable_index >= self.table().len(),
            },
    {
        let mut rows = self.visible_rows();
        if self.variable_index < rows.len() {
            let ghost views = row_views(rows@);
            assert(views[self.variable_index as int] == rows@[self.variable_index as int]@);
            Some(rows.remove(self.variable_index))
        } else {
            None
        }
    }

    /// Moves the cursor of the focused pane one row down, wrapping around.
    pub fn select_next(&mut self)
        ensures
            *final(self) == (match old(self).pane {
                Pane::Boards => App {
                    board_index: step_forward(old(self).board_index, old(self).database.sdo_boards@.len() as usize),
                    ..*old(self)
                },
                Pane::Variables => App {
                    variable_index: step_forward(old(self).variable_index, old(self).table().len() as usize),
                    ..*old(self)
                },
                Pane::Log => *old(self),
            }),
    {
        match self.pane {
            Pane::Boards => {
                let len = self.board_labels().len();
                self.board_index = cycle_forward(self.board_index, len);
            },
            Pane::Variables => {
                let len = self.visible_rows().len();
                self.variable_index = cycle_forward(self.variable_index, len);
            },
            Pane::Log => {},
        }
    }
}

/// Why the front end could not build a request.
#[derive(Clone, Copy, Debug, PartialEq, Eq, Structural)]
pub enum AppError {
    BoardNotFound,
    VariableNotFound,
    Encode(EncodeError),
}

/// The 7-byte payload of a request: `opcode` in bits 0..8, the low 10 bits
/// of `var_id` in bits 8..18, the low `bits` bits of `raw` from bit 24 on,
/// and every other bit clear.
pub open spec fn is_request_payload(p: Seq<u8>, opcode: u64, var_id: u16, raw: u64, bits: nat) -> bool {
    &&& p.len() == 7
    &&& field_value(p, 0, 8) == opcode
    &&& field_value(p, 8, 10) == low_bits(var_id as u64, 10)
    &&& field_value(p, 18, 6) == 0
    &&& field_value(p, 24, bits) == low_bits(raw, bits as int)
    &&& field_value(p, 24 + bits as int, (32 - bits) as nat) == 0
}

/// The payload of a GET request for `var_id`.
pub fn get_payload(var_id: u16) -> (payload: [u8; 7])
    ensures
        is_request_payload(payload@, 1, var_id, 0, 0),
{
    request_payload(1, var_id, 0, 0)
}

/// The payload of a request carrying `opcode`, `var_id` and the low `bits`
/// bits of `raw`.
pub(crate) fn request_payload(opcode: u64, var_id: u16, raw: u64, bits: u16) -> (payload: [u8; 7])
    requires
        opcode < 256,
        bits <= 32,
    ensures
        is_request_payload(payload@, opcode, var_id, raw, bits as nat),
{
    let mut payload = [0u8; 7];
    let ghost p0 = payload@;
    assert forall|i: int| 0 <= i < p0.len() implies #[trigger] p0[i] == 0 by {}
    insert_bits(&mut payload, 0, 8, opcode);
    let ghost p1 = payload@;
    insert_bits(&mut payload, 8, 10, var_id as u64);
    let ghost p2 = payload@;
    insert_bits(&mut payload, 24, bits, raw);
    proof {
        let w = bits as nat;
        let p3 = payload@;
        // opcode field
        law_extract_after_insert(p0, p1, 0, 8, opcode);
        law_insert_keeps_other_fields(p1, p2, 8, 10, var_id as u64, 0, 8);
        law_insert_keeps_other_fields(p2, p3, 24, w as int, raw, 0, 8);
        vstd::arithmetic::power2::lemma2_to64();
        vstd::arithmetic::div_mod::lemma_small_mod(opcode as nat, 256);
        // id field
        law_extract_after_insert(p1, p2, 8, 10, var_id as u64);
        law_insert_keeps_other_fields(p2, p3, 24, w as int, raw, 8, 10);
        // value field
        law_extract_after_insert(p2, p3, 24, w, raw);
        // clear fields
        lemma_zero_field(p0, 18, 6);
        law_insert_keeps_other_fields(p0, p1, 0, 8, opcode, 18, 6);
        law_insert_keeps_other_fields(p1, p2, 8, 10, var_id as u64, 18, 6);
        law_insert_keeps_other_fields(p2, p3, 24, w as int, raw, 18, 6);
        lemma_zero_field(p0, 24 + w as int, (32 - w) as nat);
        law_insert_keeps_other_fields(p0, p1, 0, 8, opcode, 24 + w as int, (32 - w) as nat);
        law_insert_keeps_other_fields(p1, p2, 8, 10, var_id as u64, 24 + w as int, (32 - w) as nat);
        law_insert_keeps_other_fields(p2, p3, 24, w as int, raw, 24 + w as int, (32 - w) as nat);
    }
    payload
}

/// Whether a SET of `value` on variable `var_id` of board `board` can be
/// asked for: a variable that the lookup finds must have a wire field of at
/// most 32 bits, which fits the request payload, and a float value must
/// already have the width of that field.
pub open spec fn set_target_fits(boards: Seq<SdoBoardDef>, board: Seq<char>, var_id: u16, value: Value) -> bool {
    match first_board_index(boards, board) {
        Some(b) => match first_variable_index(boards[b].variables@, var_id) {
            Some(v) => boards[b].variables@[v].wire_storage.bits <= 32 && float_width_fits(
                value,
                boards[b].variables@[v].wire_storage,
            ),
            None => true,
        },
        None => true,
    }
}

impl App {
    /// The message id and payload of a GET of `var_id` on the first board
    /// called `board_name`.
    pub fn get_request(&self, board_name: &str, var_id: u16) -> (result: Result<(u32, [u8; 7]), AppError>)
        ensures
            match first_board_index(self.database.sdo_boards@, board_name@) {
                Some(b) => result matches Ok((id, payload)) && id
                    == self.database.sdo_boards@[b].message_id && is_request_payload(
                    payload@,
                    1,
                    var_id,
                    0,
                    0,
                ),
                None => result == Err::<(u32, [u8; 7]), AppError>(AppError::BoardNotFound),
            },
    {
        match find_board(&self.database.sdo_boards, board_name) {
            Some(b) => Ok((self.database.sdo_boards[b].message_id, get_payload(var_id))),
            None => Err(AppError::BoardNotFound),
        }
    }

    /// Whether `set_request` may be asked for this variable and value.
    pub fn set_request_fits(&self, board_name: &str, var_id: u16, value: Value) -> (fits: bool)
        ensures
            fits == set_target_fits(self.database.sdo_boards@, board_name@, var_id, value),
    {
        match find_board(&self.database.sdo_boards, board_name) {
            Some(b) => match find_variable(&self.database.sdo_boards[b].variables, var_id) {
                Some(v) => {
                    let wire = self.database.sdo_boards[b].variables[v].wire_storage;
                    wire.bits <= 32 && fits_float_width(value, wire)
                },
                None => true,
            },
            None => true,
        }
    }

    /// The message id and payload of a SET of `value`, given in the
    /// variable's wire representation (before DBC scaling), on variable
    /// `var_id` of the first board called `board_name`: the value is encoded
    /// in the wire type and placed from bit 24 on.
    pub fn set_request(&self, board_name: &str, var_id: u16, value: Value) -> (result: Result<(u32, [u8; 7]), AppError>)
        requires
            set_target_fits(self.database.sdo_boards@, board_name@, var_id, value),
        ensures
            match first_board_index(self.database.sdo_boards@, board_name@) {
                Some(b) => {
                    let board = self.database.sdo_boards@[b];
                    match first_variable_index(board.variables@, var_id) {
                        Some(v) => {
                            let wire = board.variables@[v].wire_storage;
                            match spec_encode_raw(value, wire) {
                                Ok(raw) => result matches Ok((id, payload)) && id == board.message_id
                                    && is_request_payload(payload@, 2, var_id, raw, wire.bits as nat),
                                Err(e) => result == Err::<(u32, [u8; 7]), AppError>(AppError::Encode(e)),
                            }
                        },
                        None => result == Err::<(u32, [u8; 7]), AppError>(AppError::VariableNotFound),
                    }
                },
                None => result == Err::<(u32, [u8; 7]), AppError>(AppError::BoardNotFound),
            },
    {
        let b = match find_board(&self.database.sdo_boards, board_name) {
            Some(b) => b,
            None => return Err(AppError::BoardNotFound),
        };
        let board = &self.database.sdo_boards[b];
        let v = match find_variable(&board.variables, var_id) {
            Some(v) => v,
            None => return Err(AppError::VariableNotFound),
        };
        let variable = &board.variables[v];
        let raw = match value.encode_raw(variable.wire_storage) {
            Ok(raw) => raw,
            Err(e) => return Err(AppError::Encode(e)),
        };
        Ok((board.message_id, request_payload(2, var_id, raw, variable.wire_storage.bits)))
    }
}

/// What the keyboard is typing into, by the text of its fields.
pub enum ModeView {
    Search,
    SetValue { board: Seq<char>, var_id: u16, name: Seq<char>, storage: ValueStorage, buffer: Seq<char> },
}

/// The view of an input mode.
pub open spec fn mode_view(mode: Option<InputMode>) -> Option<ModeView> {
    match mode {
        Some(InputMode::Search) => Some(ModeView::Search),
        Some(InputMode::SetValue { board, var_id, name, storage, buffer }) => Some(
            ModeView::SetValue { board: board@, var_id, name: name@, storage, buffer: buffer@ },
        ),
        None => None,
    }
}

/// What the user sees of the front end but for the log and the values:
/// focus, cursors, sort, filters and input.
pub struct UiView {
    pub pane: Pane,
    pub board_index: usize,
    pub variable_index: usize,
    pub sort_field: SortField,
    pub sort_direction: SortDirection,
    pub board_filter: Option<Seq<char>>,
    pub search_filter: Seq<char>,
    pub should_quit: bool,
    pub input_mode: Option<ModeView>,
}

/// The view of the front end's focus, cursors, sort, filters and input.
pub open spec fn ui_state(app: App) -> UiView {
    UiView {
        pane: app.pane,
        board_index: app.board_index,
        variable_index: app.variable_index,
        sort_field: app.sort_field,
        sort_direction: app.sort_direction,
        board_filter: opt_text(app.board_filter),
        search_filter: app.search_filter@,
        should_quit: app.should_quit,
        input_mode: mode_view(app.input_mode),
    }
}

/// `s` without its last character (`s` itself when empty).
pub open spec fn popped(s: Seq<char>) -> Seq<char> {
    if s.len() > 0 {
        s.drop_last()
    } else {
        s
    }
}

/// `s` without its last character (`String::pop`).
fn without_last(s: &String) -> (out: String)
    ensures
        out@ == popped(s@),
{
    let chars = chars_of(s.as_str());
    if chars.len() > 0 {
        string_of(&chars, 0, chars.len() - 1)
    } else {
        string_of(&chars, 0, 0)
    }
}

/// `s` with `c` appended.
fn with_char(s: &String, c: char) -> (out: String)
    ensures
        out@ == s@.push(c),
{
    let mut out = s.clone();
    push_char(&mut out, c);
    out
}

/// The prompt shown while typing: the search filter, or the value being
/// typed for a variable with its board, name and type tag.
pub open spec fn prompt_text(mode: ModeView, search: Seq<char>) -> Seq<char> {
    match mode {
        ModeView::Search => "Filtro: "@ + search,
        ModeView::SetValue { board, name, storage, buffer, .. } => "Set "@ + board + "."@ + name + " ["@
            + spec_storage_tag(storage) + "]: "@ + buffer,
    }
}

/// The input mode that types a value for the row `row`.
pub open spec fn set_mode_for(row: RowView) -> ModeView {
    ModeView::SetValue {
        board: row.board,
        var_id: row.var_id,
        name: row.name,
        storage: row.storage,
        buffer: Seq::empty(),
    }
}

impl App {
    /// Moves the cursor of the focused pane one row up, wrapping around.
    pub fn select_prev(&mut self)
        ensures
            *final(self) == (match old(self).pane {
                Pane::Boards => App {
                    board_index: step_back(old(self).board_index, old(self).database.sdo_boards@.len() as usize),
                    ..*old(self)
                },
                Pane::Variables => App {
                    variable_index: step_back(old(self).variable_index, old(self).table().len() as usize),
                    ..*old(self)
                },
                Pane::Log => *old(self),
            }),
    {
        match self.pane {
            Pane::Boards => {
                let len = self.board_labels().len();
                self.board_index = cycle_back(self.board_index, len);
            },
            Pane::Variables => {
                let len = self.visible_rows().len();
                self.variable_index = cycle_back(self.variable_index, len);
            },
            Pane::Log => {},
        }
    }

    /// The prompt of the input line, while something is being typed.
    pub fn current_prompt(&self) -> (prompt: Option<String>)
        ensures
            match mode_view(self.input_mode) {
                Some(mode) => prompt matches Some(p) && p@ == prompt_text(mode, self.search_filter@),
                None => prompt is None,
            },
    {
        match &self.input_mode {
            Some(InputMode::Search) => {
                let mut text = owned("Filtro: ");
                push_str(&mut text, self.search_filter.as_str());
                Some(text)
            },
            Some(InputMode::SetValue { board, name, storage, buffer, .. }) => {
                let mut text = owned("Set ");
                push_str(&mut text, board.as_str());
                push_str(&mut text, ".");
                push_str(&mut text, name.as_str());
                push_str(&mut text, " [");
                let tag = storage_tag(*storage);
                push_str(&mut text, tag.as_str());
                push_str(&mut text, "]: ");
                push_str(&mut text, buffer.as_str());
                Some(text)
            },
            None => None,
        }
    }

    /// Starts typing a value for the row under the cursor, if any.
    pub fn begin_set_selected(&mut self)
        ensures
            ui_state(*final(self)) == (if old(self).variable_index < old(self).table().len() {
                UiView {
                    input_mode: Some(set_mode_for(old(self).table()[old(self).variable_index as int])),
                    ..ui_state(*old(self))
                }
            } else {
                ui_state(*old(self))
            }),
            final(self).database == old(self).database,
            final(self).runtime == old(self).runtime,
            final(self).dbcc == old(self).dbcc,
            final(self).transport_error == old(self).transport_error,
            final(self).sdo_values == old(self).sdo_values,
            final(self).logs == old(self).logs,
            final(self).last_status == old(self).last_status,
    {
        match self.selected_row() {
            Some(row) => {
                self.input_mode = Some(
                    InputMode::SetValue {
                        board: row.board,
                        var_id: row.var_id,
                        name: row.name,
                        storage: row.storage,
                        buffer: String::new(),
                    },
                );
            },
            None => {},
        }
    }
}

/// What a key asks the caller to send or save.
#[derive(Debug)]
pub enum KeyCommand {
    /// Nothing.
    Nothing,
    /// Read variable `var_id` of board `board`.
    Get { board: String, var_id: u16 },
    /// Read the variables of these rows, in order.
    GetAll { rows: Vec<VariableRow> },
    /// Write `input`, read as a value of `storage`, to variable `var_id` of
    /// board `board`.
    SetValue { board: String, var_id: u16, name: String, storage: ValueStorage, input: String },
    /// Save the cached values to an export file.
    Export,
}

/// The view of a command.
pub enum CommandView {
    Nothing,
    Get(Seq<char>, u16),
    GetAll(Seq<RowView>),
    SetValue(Seq<char>, u16, Seq<char>, ValueStorage, Seq<char>),
    Export,
}

/// The view of a command.
pub open spec fn command_view(command: KeyCommand) -> CommandView {
    match command {
        KeyCommand::Nothing => CommandView::Nothing,
        KeyCommand::Get { board, var_id } => CommandView::Get(board@, var_id),
        KeyCommand::GetAll { rows } => CommandView::GetAll(row_views(rows@)),
        KeyCommand::SetValue { board, var_id, name, storage, input } => CommandView::SetValue(
            board@,
            var_id,
            name@,
            storage,
            input@,
        ),
        KeyCommand::Export => CommandView::Export,
    }
}

impl App {
    /// The name of the board under the cursor of the boards pane.
    pub open spec fn selected_board(&self) -> Option<Seq<char>> {
        if self.board_index < self.database.sdo_boards@.len() {
            Some(first_word(board_label(self.database.sdo_boards@[self.board_index as int].name@)))
        } else {
            None
        }
    }

    /// What a key does to focus, cursors, sort, filters and input.
    pub open spec fn key_ui(&self, key: Key) -> UiView {
        let u = ui_state(*self);
        match u.input_mode {
            Some(ModeView::Search) => UiView {
                input_mode: if key == Key::Esc || key == Key::Enter { None } else { u.input_mode },
                search_filter: match key {
                    Key::Backspace => popped(u.search_filter),
                    Key::Char(c) => u.search_filter.push(c),
                    _ => u.search_filter,
                },
                variable_index: 0,
                ..u
            },
            Some(ModeView::SetValue { board, var_id, name, storage, buffer }) => match key {
                Key::Esc => UiView { input_mode: None, ..u },
                Key::Enter => UiView { input_mode: None, ..u },
                Key::Backspace => UiView {
                    input_mode: Some(ModeView::SetValue { board, var_id, name, storage, buffer: popped(buffer) }),
                    ..u
                },
                Key::Char(c) => UiView {
                    input_mode: Some(ModeView::SetValue { board, var_id, name, storage, buffer: buffer.push(c) }),
                    ..u
                },
                _ => u,
            },
            None => match key {
                Key::Tab => UiView { pane: next_pane(u.pane), ..u },
                Key::BackTab => UiView { pane: prev_pane(u.pane), ..u },
                Key::Down => match u.pane {
                    Pane::Boards => UiView {
                        board_index: step_forward(u.board_index, self.database.sdo_boards@.len() as usize),
                        ..u
                    },
                    Pane::Variables => UiView {
                        variable_index: step_forward(u.variable_index, self.table().len() as usize),
                        ..u
                    },
                    Pane::Log => u,
                },
                Key::Up => match u.pane {
                    Pane::Boards => UiView {
                        board_index: step_back(u.board_index, self.database.sdo_boards@.len() as usize),
                        ..u
                    },
                    Pane::Variables => UiView {
                        variable_index: step_back(u.variable_index, self.table().len() as usize),
                        ..u
                    },
                    Pane::Log => u,
                },
                Key::Char('a') => UiView { board_filter: None, variable_index: 0, ..u },
                Key::Char('f') => match self.selected_board() {
                    Some(name) => UiView { board_filter: Some(name), variable_index: 0, ..u },
                    None => u,
                },
                Key::Char('/') => UiView { input_mode: Some(ModeView::Search), ..u },
                Key::Char('s') => UiView { sort_field: next_sort_field(u.sort_field), ..u },
                Key::Char('r') => UiView { sort_direction: other_direction(u.sort_direction), ..u },
                Key::Enter | Key::Char('e') => if u.variable_index < self.table().len() {
                    UiView { input_mode: Some(set_mode_for(self.table()[u.variable_index as int])), ..u }
                } else {
                    u
                },
                Key::Esc => UiView { board_filter: None, search_filter: Seq::empty(), ..u },
                _ => u,
            },
        }
    }

    /// The line a key adds to the operation log, if any: its title and detail.
    pub open spec fn key_log(&self, key: Key) -> Option<(Seq<char>, Seq<char>)> {
        match self.input_mode {
            Some(_) => None,
            None => match key {
                Key::Char('a') => Some(("filter"@, "visualizzo tutte le schede"@)),
                Key::Char('f') => match self.selected_board() {
                    Some(name) => Some(("filter"@, "filtro sulla scheda "@ + name)),
                    None => None,
                },
                Key::Char('s') => Some(
                    (
                        seq!['s', 'o', 'r', 't'],
                        seq!['c', 'a', 'm', 'p', 'o', ' '] + sort_field_name(next_sort_field(self.sort_field)),
                    ),
                ),
                Key::Char('r') => Some(
                    (
                        seq!['s', 'o', 'r', 't'],
                        seq!['d', 'i', 'r', 'e', 'z', 'i', 'o', 'n', 'e', ' '] + direction_name(
                            other_direction(self.sort_direction),
                        ),
                    ),
                ),
                Key::Char('G') => if self.table().len() > 0 {
                    Some(("get_all"@, "invio "@ + decimal(self.table().len()) + " richieste"@))
                } else {
                    None
                },
                Key::Esc => Some(("filter"@, "filtri azzerati"@)),
                _ => None,
            },
        }
    }

    /// What a key asks the caller to send or save.
    pub open spec fn key_command(&self, key: Key) -> CommandView {
        match mode_view(self.input_mode) {
            Some(ModeView::SetValue { board, var_id, name, storage, buffer }) => if key == Key::Enter {
                CommandView::SetValue(board, var_id, name, storage, buffer)
            } else {
                CommandView::Nothing
            },
            Some(ModeView::Search) => CommandView::Nothing,
            None => match key {
                Key::Char('g') => if self.variable_index < self.table().len() {
                    CommandView::Get(
                        self.table()[self.variable_index as int].board,
                        self.table()[self.variable_index as int].var_id,
                    )
                } else {
                    CommandView::Nothing
                },
                Key::Char('G') => if self.table().len() > 0 {
                    CommandView::GetAll(self.table())
                } else {
                    CommandView::Nothing
                },
                Key::Char('x') => CommandView::Export,
                _ => CommandView::Nothing,
            },
        }
    }
}

impl App {
    fn handle_search_input(&mut self, key: Key)
        requires
            old(self).input_mode matches Some(InputMode::Search),
        ensures
            ui_state(*final(self)) == old(self).key_ui(key),
            final(self).database == old(self).database,
            final(self).runtime == old(self).runtime,
            final(self).dbcc == old(self).dbcc,
            final(self).transport_error == old(self).transport_error,
            final(self).sdo_values == old(self).sdo_values,
            final(self).logs == old(self).logs,
            final(self).last_status == old(self).last_status,
    {
        match key {
            Key::Esc | Key::Enter => {
                self.input_mode = None;
            },
            Key::Backspace => {
                self.search_filter = without_last(&self.search_filter);
            },
            Key::Char(c) => {
                self.search_filter = with_char(&self.search_filter, c);
            },
            _ => {},
        }
        self.variable_index = 0;
    }

    fn handle_set_input(&mut self, key: Key) -> (command: KeyCommand)
        requires
            old(self).input_mode matches Some(InputMode::SetValue { .. }),
        ensures
            ui_state(*final(self)) == old(self).key_ui(key),
            final(self).database == old(self).database,
            final(self).runtime == old(self).runtime,
            final(self).dbcc == old(self).dbcc,
            final(self).transport_error == old(self).transport_error,
            final(self).sdo_values == old(self).sdo_values,
            final(self).logs == old(self).logs,
            final(self).last_status == old(self).last_status,
            command_view(command) == old(self).key_command(key),
    {
        match key {
            Key::Esc => {
                self.input_mode = None;
                KeyCommand::Nothing
            },
            Key::Enter => match self.input_mode.take() {
                Some(InputMode::SetValue { board, var_id, name, storage, buffer }) => KeyCommand::SetValue {
                    board,
                    var_id,
                    name,
                    storage,
                    input: buffer,
                },
                _ => KeyCommand::Nothing,
            },
            Key::Backspace => {
                match self.input_mode.take() {
                    Some(InputMode::SetValue { board, var_id, name, storage, buffer }) => {
                        let shorter = without_last(&buffer);
                        self.input_mode = Some(InputMode::SetValue { board, var_id, name, storage, buffer: shorter });
                    },
                    other => {
                        self.input_mode = other;
                    },
                }
                KeyCommand::Nothing
            },
            Key::Char(c) => {
                match self.input_mode.take() {
                    Some(InputMode::SetValue { board, var_id, name, storage, buffer }) => {
                        let longer = with_char(&buffer, c);
                        self.input_mode = Some(InputMode::SetValue { board, var_id, name, storage, buffer: longer });
                    },
                    other => {
                        self.input_mode = other;
                    },
                }
                KeyCommand::Nothing
            },
            _ => KeyCommand::Nothing,
        }
    }

    /// Reacts to a key: moves the focus or a cursor, changes the sort or the
    /// filters, edits what is being typed, and says what the caller is to
    /// send or save. The log gains at most one line.
    pub fn handle_key(&mut self, key: Key) -> (command: KeyCommand)
        ensures
            ui_state(*final(self)) == old(self).key_ui(key),
            final(self).database == old(self).database,
            final(self).runtime == old(self).runtime,
            final(self).dbcc == old(self).dbcc,
            final(self).transport_error == old(self).transport_error,
            final(self).sdo_values == old(self).sdo_values,
            match old(self).key_log(key) {
                Some(entry) => log_grown(old(self).logs@, final(self).logs@, entry)
                    && final(self).last_status@ == entry.1,
                None => final(self).logs == old(self).logs && final(self).last_status == old(self).last_status,
            },
            command_view(command) == old(self).key_command(key),
    {
        if matches!(self.input_mode, Some(InputMode::Search)) {
            self.handle_search_input(key);
            return KeyCommand::Nothing;
        }
        if matches!(self.input_mode, Some(InputMode::SetValue { .. })) {
            return self.handle_set_input(key);
        }
        match key {
            Key::Tab => {
                self.focus_next_pane();
                KeyCommand::Nothing
            },
            Key::BackTab => {
                self.focus_prev_pane();
                KeyCommand::Nothing
            },
            Key::Down => {
                self.select_next();
                KeyCommand::Nothing
            },
            Key::Up => {
                self.select_prev();
                KeyCommand::Nothing
            },
            Key::Char('a') => {
                self.board_filter = None;
                self.variable_index = 0;
                self.push_status(owned("filter"), owned("visualizzo tutte le schede"));
                KeyCommand::Nothing
            },
            Key::Char('f') => {
                match self.selected_board_name() {
                    Some(board) => {
                        let mut detail = owned("filtro sulla scheda ");
                        push_str(&mut detail, board.as_str());
                        self.board_filter = Some(board);
                        self.variable_index = 0;
                        self.push_status(owned("filter"), detail);
                    },
                    None => {},
                }
                KeyCommand::Nothing
            },
            Key::Char('/') => {
                self.input_mode = Some(InputMode::Search);
                KeyCommand::Nothing
            },
            Key::Char('s') => {
                self.cycle_sort_field();
                KeyCommand::Nothing
            },
            Key::Char('r') => {
                self.toggle_sort_direction();
                KeyCommand::Nothing
            },
            Key::Char('g') => match self.selected_row() {
                Some(row) => KeyCommand::Get { board: row.board, var_id: row.var_id },
                None => KeyCommand::Nothing,
            },
            Key::Char('G') => {
                let rows = self.visible_rows();
                if rows.len() == 0 {
                    KeyCommand::Nothing
                } else {
                    let mut detail = owned("invio ");
                    push_decimal(&mut detail, rows.len() as u64);
                    push_str(&mut detail, " richieste");
                    self.push_status(owned("get_all"), detail);
                    KeyCommand::GetAll { rows }
                }
            },
            Key::Enter | Key::Char('e') => {
                self.begin_set_selected();
                KeyCommand::Nothing
            },
            Key::Char('x') => KeyCommand::Export,
            Key::Esc => {
                self.board_filter = None;
                self.search_filter = String::new();
                self.push_status(owned("filter"), owned("filtri azzerati"));
                KeyCommand::Nothing
            },
            _ => KeyCommand::Nothing,
        }
    }
}

/// The position of the first board that answers on message `id`, if any.
pub open spec fn message_board_index(boards: Seq<SdoBoardDef>, id: u32) -> Option<int>
    decreases boards.len(),
{
    if boards.len() == 0 {
        None
    } else if boards[0].message_id == id {
        Some(0)
    } else {
        match message_board_index(boards.drop_first(), id) {
            Some(i) => Some(i + 1),
            None => None,
        }
    }
}

proof fn lemma_message_board_index(boards: Seq<SdoBoardDef>, id: u32, i: int)
    requires
        0 <= i <= boards.len(),
        forall|j: int| 0 <= j < i ==> #[trigger] boards[j].message_id != id,
    ensures
        i < boards.len() && boards[i].message_id == id ==> message_board_index(boards, id) == Some(i),
        i == boards.len() ==> message_board_index(boards, id) is None,
    decreases i,
{
    if i > 0 {
        let rest = boards.drop_first();
        assert forall|j: int| 0 <= j < i - 1 implies #[trigger] rest[j].message_id != id by {
            assert(rest[j] == boards[j + 1]);
        }
        if i < boards.len() {
            assert(rest[i - 1] == boards[i]);
        }
        lemma_message_board_index(rest, id, i - 1);
    }
}

/// Finds the first board that answers on message `id`.
pub fn find_board_for_message(boards: &Vec<SdoBoardDef>, id: u32) -> (found: Option<usize>)
    ensures
        match found {
            Some(i) => i < boards@.len() && message_board_index(boards@, id) == Some(i as int),
            None => message_board_index(boards@, id) is None,
        },
{
    let mut i: usize = 0;
    while i < boards.len()
        invariant
            i <= boards@.len(),
            forall|j: int| 0 <= j < i ==> #[trigger] boards@[j].message_id != id,
        decreases boards.len() - i,
    {
        if boards[i].message_id == id {
            proof {
                lemma_message_board_index(boards@, id, i as int);
            }
            return Some(i);
        }
        i = i + 1;
    }
    proof {
        lemma_message_board_index(boards@, id, i as int);
    }
    None
}

/// The opcode of a received frame: its first byte.
pub open spec fn frame_code(frame: can::CanFrame) -> u64 {
    field_value(frame.data@, 0, 8)
}

/// The variable id of a received frame: bits 8..18.
pub open spec fn frame_var_id(frame: can::CanFrame) -> u16 {
    field_value(frame.data@, 8, 10) as u16
}

/// The variable a response of `board` is for, when it is a response and the
/// board has that variable.
pub open spec fn responded_variable(board: SdoBoardDef, frame: can::CanFrame) -> Option<SdoVariableDef> {
    if frame_code(frame) == 128 {
        match first_variable_index(board.variables@, frame_var_id(frame)) {
            Some(v) => Some(board.variables@[v]),
            None => None,
        }
    } else {
        None
    }
}

/// The log detail for a frame of board `name` that carries no value to store.
pub open spec fn frame_detail(name: Seq<char>, code: u64, var_id: u16) -> Seq<char> {
    if code == 128 {
        name + " risposta per var_id sconosciuto "@ + decimal(var_id as nat)
    } else if code == 253 {
        name + " var_id "@ + decimal(var_id as nat) + " fuori range"@
    } else if code == 254 {
        name + " var_id "@ + decimal(var_id as nat) + " readonly"@
    } else if code == 255 {
        name + " errore generico su var_id "@ + decimal(var_id as nat)
    } else {
        name + " opcode "@ + decimal(code as nat) + " inatteso"@
    }
}

/// A response that carries a value lies inside the 8 data bytes of a frame:
/// the wire field of the variable it is for is at most 40 bits wide.
pub open spec fn frame_fits(boards: Seq<SdoBoardDef>, frame: can::CanFrame) -> bool {
    match message_board_index(boards, frame.id) {
        Some(b) => match responded_variable(boards[b], frame) {
            Some(variable) => variable.wire_storage.bits <= 40,
            None => true,
        },
        None => true,
    }
}

/// What a received frame did to the front end.
#[derive(Debug)]
pub enum FrameOutcome {
    /// The frame is not for an SDO board.
    Ignored,
    /// The value of variable `name` of board `board` arrived and is stored;
    /// the caller logs it with `record_value`.
    Stored { board: String, name: String, value: Value },
    /// The value of the variable at `variable` of the board at `board`
    /// arrived as `wire`, its value on the wire; the variable is scaled, so
    /// the caller scales it, stores it with `store_sdo_value` and logs it.
    Scaled { board: usize, variable: usize, wire: Value },
    /// The frame was logged.
    Logged,
}

impl App {
    /// Whether `handle_frame` may be asked for `frame`.
    pub fn frame_fits(&self, frame: &can::CanFrame) -> (fits: bool)
        ensures
            fits == frame_fits(self.database.sdo_boards@, *frame),
    {
        let boards = &self.database.sdo_boards;
        match find_board_for_message(boards, frame.id) {
            Some(b) => {
                let data = frame.data.as_slice();
                let code = extract_bits(data, 0, 8);
                let var_id = extract_bits(data, 8, 10) as u16;
                if code == 128 {
                    match find_variable(&boards[b].variables, var_id) {
                        Some(v) => boards[b].variables[v].wire_storage.bits <= 40,
                        None => true,
                    }
                } else {
                    true
                }
            },
            None => true,
        }
    }

    /// Handles a frame read from the bus. A frame of an SDO board (the first
    /// that answers on its message) is read as opcode, variable id and
    /// value. A response for a variable of the board carries its value in
    /// the wire type from bit 24 on: an unscaled value is stored, a scaled
    /// one is handed to the caller to scale. Any other frame of the board is
    /// logged under `sdo`.
    pub fn handle_frame(&mut self, frame: &can::CanFrame) -> (outcome: FrameOutcome)
        requires
            frame_fits(old(self).database.sdo_boards@, *frame),
        ensures
            ui_state(*final(self)) == ui_state(*old(self)),
            final(self).database == old(self).database,
            final(self).runtime == old(self).runtime,
            final(self).dbcc == old(self).dbcc,
            final(self).transport_error == old(self).transport_error,
            match message_board_index(old(self).database.sdo_boards@, frame.id) {
                None => outcome is Ignored && *final(self) == *old(self),
                Some(b) => {
                    let board = old(self).database.sdo_boards@[b];
                    match responded_variable(board, *frame) {
                        Some(variable) => {
                            let wire = spec_decode_raw(
                                variable.wire_storage,
                                field_value(frame.data@, 24, variable.wire_storage.bits as nat),
                            );
                            &&& final(self).logs == old(self).logs
                            &&& final(self).last_status == old(self).last_status
                            &&& if spec_is_scaled(variable.factor_bits, variable.offset_bits) {
                                &&& outcome matches FrameOutcome::Scaled { board: bi, variable: vi, wire: w }
                                    && bi == b && first_variable_index(board.variables@, frame_var_id(*frame))
                                    == Some(vi as int) && w == wire
                                &&& final(self).sdo_values == old(self).sdo_values
                            } else {
                                &&& outcome matches FrameOutcome::Stored { board: b_name, name, value: v }
                                    && b_name@ == board.name@ && name@ == variable.name@ && v == wire
                                &&& cached_value(final(self).sdo_values@, board.name@, variable.id) == Some(wire)
                                &&& others_kept(old(self).sdo_values@, final(self).sdo_values@, board.name@, variable.id)
                            }
                        },
                        None => {
                            let detail = frame_detail(board.name@, frame_code(*frame), frame_var_id(*frame));
                            &&& outcome is Logged
                            &&& final(self).sdo_values == old(self).sdo_values
                            &&& log_grown(old(self).logs@, final(self).logs@, ("sdo"@, detail))
                            &&& final(self).last_status@ == detail
                        },
                    }
                },
            },
    {
        let b = match find_board_for_message(&self.database.sdo_boards, frame.id) {
            Some(b) => b,
            None => return FrameOutcome::Ignored,
        };
        let board_name = self.database.sdo_boards[b].name.clone();
        let data = frame.data.as_slice();
        let code = extract_bits(data, 0, 8);
        let var_id = extract_bits(data, 8, 10) as u16;
        let mut detail = board_name.clone();
        if code == 128 {
            match find_variable(&self.database.sdo_boards[b].variables, var_id) {
                Some(v) => {
                    let variable = &self.database.sdo_boards[b].variables[v];
                    let wire_storage = variable.wire_storage;
                    let scaled = variable.is_scaled();
                    let name = variable.name.clone();
                    let raw = extract_bits(data, 24, wire_storage.bits);
                    let wire = Value::decode_raw(wire_storage, raw);
                    if scaled {
                        return FrameOutcome::Scaled { board: b, variable: v, wire };
                    }
                    self.store_sdo_value(board_name.as_str(), var_id, wire);
                    return FrameOutcome::Stored { board: board_name, name, value: wire };
                },
                None => {
                    push_str(&mut detail, " risposta per var_id sconosciuto ");
                    push_decimal(&mut detail, var_id as u64);
                },
            }
        } else if code == 253 {
            push_str(&mut detail, " var_id ");
            push_decimal(&mut detail, var_id as u64);
            push_str(&mut detail, " fuori range");
        } else if code == 254 {
            push_str(&mut detail, " var_id ");
            push_decimal(&mut detail, var_id as u64);
            push_str(&mut detail, " readonly");
        } else if code == 255 {
            push_str(&mut detail, " errore generico su var_id ");
            push_decimal(&mut detail, var_id as u64);
        } else {
            push_str(&mut detail, " opcode ");
            push_decimal(&mut detail, code);
            push_str(&mut detail, " inatteso");
        }
        self.push_status(owned("sdo"), detail);
        FrameOutcome::Logged
    }

    /// Logs `sdo: <board> <name> => <value_text>` for a value that arrived.
    pub fn record_value(&mut self, board: &str, name: &str, value_text: &str)
        ensures
            ui_state(*final(self)) == ui_state(*old(self)),
            final(self).database == old(self).database,
            final(self).runtime == old(self).runtime,
            final(self).dbcc == old(self).dbcc,
            final(self).transport_error == old(self).transport_error,
            final(self).sdo_values == old(self).sdo_values,
            log_grown(old(self).logs@, final(self).logs@, ("sdo"@, board@ + " "@ + name@ + " => "@ + value_text@),
            ),
    {
        let mut detail = owned(board);
        push_str(&mut detail, " ");
        push_str(&mut detail, name);
        push_str(&mut detail, " => ");
        push_str(&mut detail, value_text);
        self.push_status(owned("sdo"), detail);
    }

    /// Logs `get: <board> var_id <id>` for a GET request that was sent.
    pub fn record_get(&mut self, board: &str, var_id: u16)
        ensures
            ui_state(*final(self)) == ui_state(*old(self)),
            final(self).database == old(self).database,
            final(self).runtime == old(self).runtime,
            final(self).dbcc == old(self).dbcc,
            final(self).transport_error == old(self).transport_error,
            final(self).sdo_values == old(self).sdo_values,
            log_grown(old(self).logs@, final(self).logs@, ("get"@, board@ + " var_id "@ + decimal(var_id as nat)),
            ),
    {
        let mut detail = owned(board);
        push_str(&mut detail, " var_id ");
        push_decimal(&mut detail, var_id as u64);
        self.push_status(owned("get"), detail);
    }

    /// Logs `set: <board> <name> <= <value_text>` for a SET request that was
    /// sent.
    pub fn record_set(&mut self, board: &str, name: &str, value_text: &str)
        ensures
            ui_state(*final(self)) == ui_state(*old(self)),
            final(self).database == old(self).database,
            final(self).runtime == old(self).runtime,
            final(self).dbcc == old(self).dbcc,
            final(self).transport_error == old(self).transport_error,
            final(self).sdo_values == old(self).sdo_values,
            log_grown(old(self).logs@, final(self).logs@, ("set"@, board@ + " "@ + name@ + " <= "@ + value_text@),
            ),
    {
        let mut detail = owned(board);
        push_str(&mut detail, " ");
        push_str(&mut detail, name);
        push_str(&mut detail, " <= ");
        push_str(&mut detail, value_text);
        self.push_status(owned("set"), detail);
    }
}

/// The operation log never holds more than `LOG_CAPACITY` lines; the line
/// just added is the last one, and while there is room nothing is dropped.
pub proof fn law_log_bounded<T>(log: Seq<T>, entry: T)
    requires
        log.len() <= LOG_CAPACITY,
    ensures
        bounded_log(log, entry).len() <= LOG_CAPACITY,
        bounded_log(log, entry).last() == entry,
        log.len() < LOG_CAPACITY ==> bounded_log(log, entry) == log.push(entry),
        log.len() == LOG_CAPACITY ==> bounded_log(log, entry) == log.drop_first().push(entry),
{
    if log.len() == LOG_CAPACITY {
        assert(log.push(entry).skip(1) =~= log.drop_first().push(entry));
    }
}

/// Focus moves round the three panes: forward then back, or three steps
/// forward, leave it where it was. The sort column comes back after four
/// steps and the direction after two.
pub proof fn law_focus_and_sort_cycles(pane: Pane, field: SortField, direction: SortDirection)
    ensures
        prev_pane(next_pane(pane)) == pane,
        next_pane(prev_pane(pane)) == pane,
        next_pane(next_pane(next_pane(pane))) == pane,
        next_sort_field(next_sort_field(next_sort_field(next_sort_field(field)))) == field,
        other_direction(other_direction(direction)) == direction,
{
}

/// How many log lines the log pane shows.
pub const LOG_LINES_SHOWN: usize = 12;

impl App {
    /// The positions in the log of the lines the log pane shows: the last
    /// `LOG_LINES_SHOWN`, newest first.
    pub fn shown_log_positions(&self) -> (shown: Vec<usize>)
        ensures
            shown@.len() == if self.logs@.len() < LOG_LINES_SHOWN {
                self.logs@.len()
            } else {
                LOG_LINES_SHOWN as nat
            },
            forall|k: int| 0 <= k < shown@.len() ==> #[trigger] shown@[k] == self.logs@.len() - 1 - k,
    {
        let len = self.logs.len();
        let mut shown: Vec<usize> = Vec::new();
        while shown.len() < LOG_LINES_SHOWN && shown.len() < len
            invariant
                len == self.logs@.len(),
                shown@.len() <= LOG_LINES_SHOWN,
                shown@.len() <= len,
                forall|k: int| 0 <= k < shown@.len() ==> #[trigger] shown@[k] == len - 1 - k,
            decreases len - shown@.len(),
        {
            let k = shown.len();
            shown.push(len - 1 - k);
        }
        shown
    }
}

/// Rows in the table's order follow the chosen column. Ascending, a later
/// row never has a smaller key than an earlier one: board name (ties by
/// id), variable name (ties by board), id (ties by board) or type tag (ties
/// by board); descending, never a greater one. So a row with a smaller key
/// comes first ascending and last descending, whatever its other columns.
pub proof fn law_table_order(field: SortField, direction: SortDirection, rows: Seq<RowView>)
    requires
        rows_sorted(field, direction, rows),
    ensures
        forall|i: int, j: int|
            #![trigger rows[i], rows[j]]
            0 <= i < j < rows.len() ==> {
                let (a, b) = if direction == SortDirection::Asc {
                    (rows[i], rows[j])
                } else {
                    (rows[j], rows[i])
                };
                &&& field == SortField::Board ==> !text_lt(b.board, a.board) && (a.board == b.board
                    ==> a.var_id <= b.var_id)
                &&& field == SortField::Variable ==> !text_lt(b.name, a.name) && (a.name == b.name
                    ==> !text_lt(b.board, a.board))
                &&& field == SortField::VarId ==> a.var_id <= b.var_id && (a.var_id == b.var_id
                    ==> !text_lt(b.board, a.board))
                &&& field == SortField::Type ==> !text_lt(spec_storage_tag(b.storage), spec_storage_tag(a.storage))
                    && (spec_storage_tag(a.storage) == spec_storage_tag(b.storage) ==> !text_lt(b.board, a.board))
            },
        forall|i: int, j: int|
            #![trigger rows[i], rows[j]]
            0 <= i < rows.len() && 0 <= j < rows.len() && field == SortField::VarId && (
            if direction == SortDirection::Asc {
                rows[i].var_id < rows[j].var_id
            } else {
                rows[i].var_id > rows[j].var_id
            }) ==> i < j,
        forall|i: int, j: int|
            #![trigger rows[i], rows[j]]
            0 <= i < rows.len() && 0 <= j < rows.len() && field == SortField::Board && (
            if direction == SortDirection::Asc {
                text_lt(rows[i].board, rows[j].board)
            } else {
                text_lt(rows[j].board, rows[i].board)
            }) ==> i < j,
        forall|i: int, j: int|
            #![trigger rows[i], rows[j]]
            0 <= i < rows.len() && 0 <= j < rows.len() && field == SortField::Variable && (
            if direction == SortDirection::Asc {
                text_lt(rows[i].name, rows[j].name)
            } else {
                text_lt(rows[j].name, rows[i].name)
            }) ==> i < j,
        forall|i: int, j: int|
            #![trigger rows[i], rows[j]]
            0 <= i < rows.len() && 0 <= j < rows.len() && field == SortField::Type && (
            if direction == SortDirection::Asc {
                text_lt(spec_storage_tag(rows[i].storage), spec_storage_tag(rows[j].storage))
            } else {
                text_lt(spec_storage_tag(rows[j].storage), spec_storage_tag(rows[i].storage))
            }) ==> i < j,
{
    assert forall|i: int, j: int| #![trigger rows[i], rows[j]] 0 <= i < j < rows.len() implies {
                let (a, b) = if direction == SortDirection::Asc {
                    (rows[i], rows[j])
                } else {
                    (rows[j], rows[i])
                };
                &&& field == SortField::Board ==> !text_lt(b.board, a.board) && (a.board == b.board
                    ==> a.var_id <= b.var_id)
                &&& field == SortField::Variable ==> !text_lt(b.name, a.name) && (a.name == b.name
                    ==> !text_lt(b.board, a.board))
                &&& field == SortField::VarId ==> a.var_id <= b.var_id && (a.var_id == b.var_id
                    ==> !text_lt(b.board, a.board))
                &&& field == SortField::Type ==> !text_lt(spec_storage_tag(b.storage), spec_storage_tag(a.storage))
                    && (spec_storage_tag(a.storage) == spec_storage_tag(b.storage) ==> !text_lt(b.board, a.board))
            } by {
        assert(!row_before(field, direction, rows[j], rows[i]));
    }
    assert forall|i: int, j: int|
            #![trigger rows[i], rows[j]]
        0 <= i < rows.len() && 0 <= j < rows.len() && field == SortField::Board && (
        if direction == SortDirection::Asc {
            text_lt(rows[i].board, rows[j].board)
        } else {
            text_lt(rows[j].board, rows[i].board)
        }) implies i < j by {
        lemma_text_lt_irreflexive(rows[i].board);
        if j < i {
            assert(!row_before(field, direction, rows[i], rows[j]));
        }
    }
    assert forall|i: int, j: int|
            #![trigger rows[i], rows[j]]
        0 <= i < rows.len() && 0 <= j < rows.len() && field == SortField::Variable && (
        if direction == SortDirection::Asc {
            text_lt(rows[i].name, rows[j].name)
        } else {
            text_lt(rows[j].name, rows[i].name)
        }) implies i < j by {
        lemma_text_lt_irreflexive(rows[i].name);
        if j < i {
            assert(!row_before(field, direction, rows[i], rows[j]));
        }
    }
    assert forall|i: int, j: int|
            #![trigger rows[i], rows[j]]
        0 <= i < rows.len() && 0 <= j < rows.len() && field == SortField::Type && (
        if direction == SortDirection::Asc {
            text_lt(spec_storage_tag(rows[i].storage), spec_storage_tag(rows[j].storage))
        } else {
            text_lt(spec_storage_tag(rows[j].storage), spec_storage_tag(rows[i].storage))
        }) implies i < j by {
        lemma_text_lt_irreflexive(spec_storage_tag(rows[i].storage));
        if j < i {
            assert(!row_before(field, direction, rows[i], rows[j]));
        }
    }
    assert forall|i: int, j: int|
            #![trigger rows[i], rows[j]]
        0 <= i < rows.len() && 0 <= j < rows.len() && field == SortField::VarId && (
        if direction == SortDirection::Asc {
            rows[i].var_id < rows[j].var_id
        } else {
            rows[i].var_id > rows[j].var_id
        }) implies i < j by {
        if j < i {
            assert(!row_before(field, direction, rows[i], rows[j]));
        }
    }
}

/// Outside an input mode, Esc clears both filters: afterwards no board
/// filter is set, the search text is empty and the table shows the rows of
/// every board; the log says the filters were reset. Nothing else of the
/// front end changes.
pub proof fn law_escape_clears_filters(app: App)
    requires
        app.input_mode is None,
    ensures
        app.key_ui(Key::Esc).board_filter is None,
        app.key_ui(Key::Esc).search_filter == Seq::<char>::empty(),
        app.key_ui(Key::Esc).pane == app.pane,
        app.key_ui(Key::Esc).sort_field == app.sort_field,
        app.key_ui(Key::Esc).sort_direction == app.sort_direction,
        app.key_ui(Key::Esc).input_mode is None,
        app.key_log(Key::Esc) == Some(("filter"@, "filtri azzerati"@)),
        app.key_command(Key::Esc) == CommandView::Nothing,
        forall|b: Seq<char>| #[trigger] passes_board_filter(None, b),
        forall|n: Seq<char>| #[trigger] passes_search_filter(Seq::<char>::empty(), n),
{
}

/// Outside an input mode, Tab then BackTab, or three Tabs, bring the front
/// end back to the state it started from: each key moves only the focus
/// (`handle_key` leaves all else, the log included, as it was when the key
/// logs nothing) and asks for nothing.
pub proof fn law_tab_round_trip(a: App, b: App, c: App)
    requires
        a.input_mode is None,
        ui_state(b) == a.key_ui(Key::Tab),
        ui_state(c) == b.key_ui(Key::Tab),
    ensures
        b.key_ui(Key::BackTab) == ui_state(a),
        c.key_ui(Key::Tab) == ui_state(a),
        a.key_log(Key::Tab) is None,
        b.key_log(Key::Tab) is None,
        b.key_log(Key::BackTab) is None,
        c.key_log(Key::Tab) is None,
        a.key_command(Key::Tab) == CommandView::Nothing,
        b.key_command(Key::Tab) == CommandView::Nothing,
        b.key_command(Key::BackTab) == CommandView::Nothing,
        c.key_command(Key::Tab) == CommandView::Nothing,
{
    assert(b.input_mode is None);
    assert(c.input_mode is None);
    law_focus_and_sort_cycles(a.pane, a.sort_field, a.sort_direction);
}

/// On a list of `len` rows the cursor stays on a row, and a step up undoes
/// a step down and the other way round.
pub proof fn law_selection_steps(index: usize, len: usize)
    requires
        index < len,
    ensures
        step_forward(index, len) < len,
        step_back(index, len) < len,
        step_back(step_forward(index, len), len) == index,
        step_forward(step_back(index, len), len) == index,
{
    let n = len as int;
    let i = index as int;
    if i + 1 < n {
        vstd::arithmetic::div_mod::lemma_small_mod((i + 1) as nat, n as nat);
        vstd::arithmetic::div_mod::lemma_small_mod((i + 1 + n - 1 - n) as nat, n as nat);
        vstd::arithmetic::div_mod::lemma_mod_add_multiples_vanish(i, n);
    } else {
        vstd::arithmetic::div_mod::lemma_mod_self_0(n);
        vstd::arithmetic::div_mod::lemma_small_mod((n - 1) as nat, n as nat);
    }
    if i > 0 {
        vstd::arithmetic::div_mod::lemma_mod_add_multiples_vanish(i - 1, n);
        vstd::arithmetic::div_mod::lemma_small_mod((i - 1) as nat, n as nat);
        vstd::arithmetic::div_mod::lemma_small_mod(i as nat, n as nat);
    } else {
        vstd::arithmetic::div_mod::lemma_small_mod((n - 1) as nat, n as nat);
        vstd::arithmetic::div_mod::lemma_mod_self_0(n);
    }
}

} // verus!
