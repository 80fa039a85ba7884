//! The database of a DBC: its messages and the SDO boards that the
//! generated message table and the DBC annotations describe.
use vstd::prelude::*;
use vstd::utf8::{decode_utf8, valid_utf8};

use std::collections::BTreeMap;

use crate::annotations::{DbcAnnotations, DbcError, ValueTable, spec_annotations, table_view, table_views, text_map};
use crate::codec::{MessageInfo, SignalInfo};
use crate::dbc::{
    Database, MessageDef, SdoBoardDef, SdoVariableDef, ValueStorage, inferred_sender,
    physical_storage, spec_inferred_sender, spec_physical_storage, spec_wire_storage, wire_storage,
};
use crate::exports::{clone_opt_string, opt_text, texts};
use crate::text::{
    chars_of, compare_text, has_prefix, lemma_text_lt_asymmetric, lemma_text_lt_irreflexive,
    lemma_text_lt_transitive, same_text, starts_with_at, text_lt, TextOrder,
};

verus! {

/// An SDO variable by the text of its parts.
pub struct VariableView {
    pub id: u16,
    pub name: Seq<char>,
    pub storage: ValueStorage,
    pub wire_storage: ValueStorage,
    pub factor_bits: u64,
    pub offset_bits: u64,
    pub unit: Option<Seq<char>>,
    pub enum_values: Map<i64, Seq<char>>,
}

/// An SDO board by the text of its parts.
pub struct BoardView {
    pub name: Seq<char>,
    pub message_id: u32,
    pub variables: Seq<VariableView>,
}

/// The view of a variable.
pub open spec fn variable_view(v: SdoVariableDef) -> VariableView {
    VariableView {
        id: v.id,
        name: v.name@,
        storage: v.storage,
        wire_storage: v.wire_storage,
        factor_bits: v.factor_bits,
        offset_bits: v.offset_bits,
        unit: opt_text(v.unit),
        enum_values: text_map(v.enum_values@),
    }
}

/// The views of variables.
pub open spec fn variable_views(vs: Seq<SdoVariableDef>) -> Seq<VariableView> {
    vs.map_values(|v: SdoVariableDef| variable_view(v))
}

/// The view of a board.
pub open spec fn board_view(b: SdoBoardDef) -> BoardView {
    BoardView { name: b.name@, message_id: b.message_id, variables: variable_views(b.variables@) }
}

/// The views of boards.
pub open spec fn board_views(bs: Seq<SdoBoardDef>) -> Seq<BoardView> {
    bs.map_values(|b: SdoBoardDef| board_view(b))
}

/// Some signal is called `name`.
pub open spec fn has_signal(signals: Seq<SignalInfo>, name: Seq<char>) -> bool {
    exists|i: int| 0 <= i < signals.len() && #[trigger] signals[i].name@ == name
}

/// Some signal called `name` is the multiplexor.
pub open spec fn has_multiplexor(signals: Seq<SignalInfo>, name: Seq<char>) -> bool {
    exists|i: int| 0 <= i < signals.len() && #[trigger] signals[i].name@ == name && signals[i].multiplexor
}

/// A message laid out for SDO: its name starts with `SDO` and it has the
/// signals `opcode`, `flags`, `dbc_hash` and the multiplexor `var_id`.
pub open spec fn is_sdo_message(m: MessageInfo) -> bool {
    &&& has_prefix(m.name@, seq!['S', 'D', 'O'])
    &&& has_signal(m.signals@, "opcode"@)
    &&& has_signal(m.signals@, "flags"@)
    &&& has_signal(m.signals@, "dbc_hash"@)
    &&& has_multiplexor(m.signals@, "var_id"@)
}

/// The value labels given for signal `signal` of message `id`: the last
/// description of it, or none.
pub open spec fn table_values(tables: Seq<(u32, Seq<char>, Map<i64, Seq<char>>)>, id: u32, signal: Seq<char>) -> Map<i64, Seq<char>>
    decreases tables.len(),
{
    if tables.len() == 0 {
        Map::empty()
    } else if tables.last().0 == id && tables.last().1 == signal {
        tables.last().2
    } else {
        table_values(tables.drop_last(), id, signal)
    }
}

/// The variable that a signal of message `message_id` defines: a signal
/// multiplexed by a `var_id` value that fits in 16 bits, placed at bit 24,
/// at least one bit long.
pub open spec fn signal_variable(message_id: u32, s: SignalInfo, tables: Seq<(u32, Seq<char>, Map<i64, Seq<char>>)>) -> Option<VariableView> {
    match s.switch_value {
        Some(sv) => if sv <= 0xffff && s.multiplexed && s.start_bit == 24 && s.bit_length > 0 {
            Some(
                VariableView {
                    id: sv as u16,
                    name: s.name@,
                    storage: spec_physical_storage(s),
                    wire_storage: spec_wire_storage(s),
                    factor_bits: s.scaling_bits,
                    offset_bits: s.offset_bits,
                    unit: if s.units@.len() > 0 {
                        Some(s.units@)
                    } else {
                        None
                    },
                    enum_values: table_values(tables, message_id, s.name@),
                },
            )
        } else {
            None
        },
        None => None,
    }
}

/// The variables that the signals define, in signal order.
pub open spec fn signal_variables(message_id: u32, signals: Seq<SignalInfo>, tables: Seq<(u32, Seq<char>, Map<i64, Seq<char>>)>) -> Seq<VariableView>
    decreases signals.len(),
{
    if signals.len() == 0 {
        Seq::empty()
    } else {
        let prev = signal_variables(message_id, signals.drop_last(), tables);
        match signal_variable(message_id, signals.last(), tables) {
            Some(v) => prev.push(v),
            None => prev,
        }
    }
}

/// Where an insertion by id puts `x` into `sorted`: before the first
/// variable with a greater id.
pub open spec fn id_position(sorted: Seq<VariableView>, x: VariableView) -> int
    decreases sorted.len(),
{
    if sorted.len() == 0 {
        0
    } else if x.id < sorted[0].id {
        0
    } else {
        1 + id_position(sorted.drop_first(), x)
    }
}

/// The variables by increasing id; variables with the same id keep their
/// order (a stable sort).
pub open spec fn sort_by_id(vs: Seq<VariableView>) -> Seq<VariableView>
    decreases vs.len(),
{
    if vs.len() == 0 {
        Seq::empty()
    } else {
        let sorted = sort_by_id(vs.drop_last());
        sorted.insert(id_position(sorted, vs.last()), vs.last())
    }
}

/// The board that message `m`, sent by `sender`, describes: an SDO message
/// with at least one variable, its variables sorted by id.
pub open spec fn spec_sdo_board(m: MessageInfo, sender: Seq<char>, tables: Seq<(u32, Seq<char>, Map<i64, Seq<char>>)>) -> Option<BoardView> {
    let variables = sort_by_id(signal_variables(m.id, m.signals@, tables));
    if is_sdo_message(m) && variables.len() > 0 {
        Some(BoardView { name: sender, message_id: m.id, variables })
    } else {
        None
    }
}

proof fn lemma_id_position(sorted: Seq<VariableView>, x: VariableView, p: int)
    requires
        0 <= p <= sorted.len(),
        forall|j: int| 0 <= j < p ==> !(x.id < #[trigger] sorted[j].id),
        p == sorted.len() || x.id < sorted[p].id,
    ensures
        id_position(sorted, x) == p,
    decreases p,
{
    if p > 0 {
        let rest = sorted.drop_first();
        assert forall|j: int| 0 <= j < p - 1 implies !(x.id < #[trigger] rest[j].id) by {
            assert(rest[j] == sorted[j + 1]);
        }
        if p < sorted.len() {
            assert(rest[p - 1] == sorted[p]);
        }
        lemma_id_position(rest, x, p - 1);
    }
}

/// The variables by increasing id, a stable sort.
fn sort_variables(vars: Vec<SdoVariableDef>) -> (sorted: Vec<SdoVariableDef>)
    ensures
        variable_views(sorted@) == sort_by_id(variable_views(vars@)),
        forall|i: int, j: int| 0 <= i < j < sorted@.len() ==> sorted@[i].id <= sorted@[j].id,
{
    let ghost input = vars@;
    assert(input.len() == vars.len());
    let mut rest = vars;
    let mut out: Vec<SdoVariableDef> = Vec::new();
    let mut taken: usize = 0;
    while rest.len() > 0
        invariant
            input.len() <= usize::MAX,
            taken + rest@.len() == input.len(),
            rest@ == input.subrange(taken as int, input.len() as int),
            variable_views(out@) == sort_by_id(variable_views(input.subrange(0, taken as int))),
            forall|i: int, j: int| 0 <= i < j < out@.len() ==> out@[i].id <= out@[j].id,
        decreases rest.len(),
    {
        let x = rest.remove(0);
        let mut pos: usize = 0;
        while pos < out.len() && !(x.id < out[pos].id)
            invariant
                pos <= out@.len(),
                forall|j: int| 0 <= j < pos ==> !(x.id < #[trigger] out@[j].id),
            decreases out.len() - pos,
        {
            pos = pos + 1;
        }
        let ghost before = out@;
        out.insert(pos, x);
        proof {
            let vb = variable_views(before);
            assert(variable_views(out@) =~= vb.insert(pos as int, variable_view(x)));
            assert forall|j: int| 0 <= j < pos implies !(variable_view(x).id < #[trigger] vb[j].id) by {
                assert(vb[j].id == before[j].id);
            }
            lemma_id_position(vb, variable_view(x), pos as int);
            assert(x == input[taken as int]);
            let grown = variable_views(input.subrange(0, taken + 1));
            assert(grown.drop_last() =~= variable_views(input.subrange(0, taken as int)));
            assert(grown.last() == variable_view(x));
            assert forall|i: int, j: int| 0 <= i < j < out@.len() implies out@[i].id <= out@[j].id by {
                if i < pos && j == pos {
                    assert(out@[i] == before[i]);
                } else if i == pos && j > pos {
                    assert(out@[j] == before[j - 1]);
                    if pos < before.len() {
                        assert(before[pos as int].id <= before[j - 1].id);
                    }
                } else if i < pos && j > pos {
                    assert(out@[i] == before[i]);
                    assert(out@[j] == before[j - 1]);
                } else if j < pos {
                    assert(out@[i] == before[i]);
                    assert(out@[j] == before[j]);
                } else {
                    assert(out@[i] == before[i - 1]);
                    assert(out@[j] == before[j - 1]);
                }
            }
            assert(rest@ == input.subrange(taken + 1, input.len() as int));
        }
        taken = taken + 1;
    }
    assert(input.subrange(0, input.len() as int) == input);
    out
}

/// Whether some signal is called `name` (and, when `multiplexor` is asked
/// for, is the multiplexor).
fn find_signal(signals: &Vec<SignalInfo>, name: &str, multiplexor: bool) -> (found: bool)
    ensures
        found == if multiplexor {
            has_multiplexor(signals@, name@)
        } else {
            has_signal(signals@, name@)
        },
{
    let mut i: usize = 0;
    while i < signals.len()
        invariant
            i <= signals@.len(),
            forall|j: int|
                0 <= j < i ==> !(#[trigger] signals@[j].name@ == name@ && (!multiplexor
                    || signals@[j].multiplexor)),
        decreases signals.len() - i,
    {
        if same_text(signals[i].name.as_str(), name) && (!multiplexor || signals[i].multiplexor) {
            return true;
        }
        i = i + 1;
    }
    false
}

/// The position of the last description of signal `signal` of message `id`.
fn find_table(tables: &Vec<ValueTable>, id: u32, signal: &str) -> (found: Option<usize>)
    ensures
        match found {
            Some(i) => i < tables@.len() && table_values(table_views(tables@), id, signal@) == table_view(
                tables@[i as int],
            ).2,
            None => table_values(table_views(tables@), id, signal@) == Map::<i64, Seq<char>>::empty(),
        },
{
    let ghost views = table_views(tables@);
    let mut k = tables.len();
    assert(views.subrange(0, k as int) =~= views);
    while k > 0
        invariant
            k <= tables@.len(),
            views == table_views(tables@),
            table_values(views, id, signal@) == table_values(views.subrange(0, k as int), id, signal@),
        decreases k,
    {
        let t = &tables[k - 1];
        assert(views.subrange(0, k as int).last() == table_view(*t));
        if t.message_id == id && same_text(t.signal.as_str(), signal) {
            return Some(k - 1);
        }
        assert(views.subrange(0, k as int).drop_last() =~= views.subrange(0, k - 1));
        k = k - 1;
    }
    None
}

/// The variable that a signal of message `message_id` defines, if any.
fn signal_variable_of(message_id: u32, signal: &SignalInfo, tables: &Vec<ValueTable>) -> (variable: Option<SdoVariableDef>)
    ensures
        match signal_variable(message_id, *signal, table_views(tables@)) {
            Some(v) => variable matches Some(x) && variable_view(x) == v,
            None => variable is None,
        },
{
    let sv = match signal.switch_value {
        Some(sv) => sv,
        None => return None,
    };
    if sv > 0xffff || !signal.multiplexed || signal.start_bit != 24 || signal.bit_length == 0 {
        return None;
    }
    let enum_values = match find_table(tables, message_id, signal.name.as_str()) {
        Some(i) => tables[i].values.clone(),
        None => BTreeMap::new(),
    };
    let unit = if signal.units.as_str().is_empty() {
        None
    } else {
        Some(signal.units.clone())
    };
    let variable = SdoVariableDef {
        id: sv as u16,
        name: signal.name.clone(),
        storage: physical_storage(signal),
        wire_storage: wire_storage(signal),
        factor_bits: signal.scaling_bits,
        offset_bits: signal.offset_bits,
        unit,
        enum_values,
    };
    proof {
        assert(text_map(variable.enum_values@) =~= table_values(table_views(tables@), message_id, signal.name@));
    }
    Some(variable)
}

/// The board that message `message`, sent by `sender`, describes, when it is
/// an SDO message with at least one variable.
pub fn sdo_board(message: &MessageInfo, sender: String, tables: &Vec<ValueTable>) -> (board: Option<SdoBoardDef>)
    ensures
        match spec_sdo_board(*message, sender@, table_views(tables@)) {
            Some(b) => board matches Some(x) && board_view(x) == b,
            None => board is None,
        },
        board matches Some(x) ==> forall|i: int, j: int|
            0 <= i < j < x.variables@.len() ==> x.variables@[i].id <= x.variables@[j].id,
{
    let chars = chars_of(message.name.as_str());
    proof {
        reveal_strlit("SDO");
        assert("SDO"@ == seq!['S', 'D', 'O']);
        assert(chars@.subrange(0, chars@.len() as int) == chars@);
    }
    let is_sdo = starts_with_at(&chars, 0, chars.len(), "SDO") && find_signal(&message.signals, "opcode", false)
        && find_signal(&message.signals, "flags", false) && find_signal(&message.signals, "dbc_hash", false)
        && find_signal(&message.signals, "var_id", true);
    if !is_sdo {
        return None;
    }
    let signals = &message.signals;
    let ghost tviews = table_views(tables@);
    let mut variables: Vec<SdoVariableDef> = Vec::new();
    let mut i: usize = 0;
    while i < signals.len()
        invariant
            i <= signals@.len(),
            tviews == table_views(tables@),
            variable_views(variables@) == signal_variables(message.id, signals@.subrange(0, i as int), tviews),
        decreases signals.len() - i,
    {
        let ghost prefix = signals@.subrange(0, i + 1);
        assert(prefix.drop_last() =~= signals@.subrange(0, i as int));
        assert(prefix.last() == signals@[i as int]);
        match signal_variable_of(message.id, &signals[i], tables) {
            Some(v) => {
                let ghost before = variables@;
                variables.push(v);
                assert(variable_views(variables@) =~= variable_views(before).push(variable_view(v)));
            },
            None => {},
        }
        i = i + 1;
    }
    assert(signals@.subrange(0, signals@.len() as int) =~= signals@);
    let sorted = sort_variables(variables);
    if sorted.len() == 0 {
        return None;
    }
    Some(SdoBoardDef { name: sender, message_id: message.id, variables: sorted })
}

/// Board `a` comes strictly before board `b`: by name, then by message id.
pub open spec fn board_lt(a: BoardView, b: BoardView) -> bool {
    text_lt(a.name, b.name) || (a.name == b.name && a.message_id < b.message_id)
}

/// Where an insertion puts `x` into `sorted`: before the first board that
/// `x` comes strictly before.
pub open spec fn board_position(sorted: Seq<BoardView>, x: BoardView) -> int
    decreases sorted.len(),
{
    if sorted.len() == 0 {
        0
    } else if board_lt(x, sorted[0]) {
        0
    } else {
        1 + board_position(sorted.drop_first(), x)
    }
}

/// The boards by name, then message id (a stable sort).
pub open spec fn sort_boards(bs: Seq<BoardView>) -> Seq<BoardView>
    decreases bs.len(),
{
    if bs.len() == 0 {
        Seq::empty()
    } else {
        let sorted = sort_boards(bs.drop_last());
        sorted.insert(board_position(sorted, bs.last()), bs.last())
    }
}

/// The boards are in order of name, then message id.
pub open spec fn boards_sorted(bs: Seq<BoardView>) -> bool {
    forall|i: int, j: int| 0 <= i < j < bs.len() ==> !board_lt(bs[j], bs[i])
}

/// The sender of message `m`: the one its `BO_` line names, else the one
/// its name gives.
pub open spec fn message_sender(senders: Map<u32, Seq<char>>, m: MessageInfo) -> Seq<char> {
    if senders.contains_key(m.id) {
        senders[m.id]
    } else {
        spec_inferred_sender(m.name@)
    }
}

/// The boards that the messages describe, in message order.
pub open spec fn described_boards(messages: Seq<MessageInfo>, senders: Map<u32, Seq<char>>, tables: Seq<(u32, Seq<char>, Map<i64, Seq<char>>)>) -> Seq<BoardView>
    decreases messages.len(),
{
    if messages.len() == 0 {
        Seq::empty()
    } else {
        let prev = described_boards(messages.drop_last(), senders, tables);
        match spec_sdo_board(messages.last(), message_sender(senders, messages.last()), tables) {
            Some(b) => prev.push(b),
            None => prev,
        }
    }
}

/// The name of each message, by id (a later message replaces an earlier
/// one with the same id).
pub open spec fn message_names(messages: Seq<MessageInfo>) -> Map<u32, Seq<char>>
    decreases messages.len(),
{
    if messages.len() == 0 {
        Map::empty()
    } else {
        message_names(messages.drop_last()).insert(messages.last().id, messages.last().name@)
    }
}

/// The names of the messages of a database, by id.
pub open spec fn def_names(m: Map<u32, MessageDef>) -> Map<u32, Seq<char>> {
    m.map_values(|d: MessageDef| d.name@)
}

proof fn lemma_board_lt_transitive(a: BoardView, b: BoardView, c: BoardView)
    requires
        board_lt(a, b),
        board_lt(b, c),
    ensures
        board_lt(a, c),
{
    if text_lt(a.name, b.name) && text_lt(b.name, c.name) {
        lemma_text_lt_transitive(a.name, b.name, c.name);
    }
}

proof fn lemma_board_lt_asymmetric(a: BoardView, b: BoardView)
    requires
        board_lt(a, b),
    ensures
        !board_lt(b, a),
{
    lemma_text_lt_irreflexive(a.name);
    if text_lt(a.name, b.name) {
        lemma_text_lt_asymmetric(a.name, b.name);
    }
}

proof fn lemma_board_position(sorted: Seq<BoardView>, x: BoardView, p: int)
    requires
        0 <= p <= sorted.len(),
        forall|j: int| 0 <= j < p ==> !board_lt(x, #[trigger] sorted[j]),
        p == sorted.len() || board_lt(x, sorted[p]),
    ensures
        board_position(sorted, x) == p,
    decreases p,
{
    if p > 0 {
        let rest = sorted.drop_first();
        assert forall|j: int| 0 <= j < p - 1 implies !board_lt(x, #[trigger] rest[j]) by {
            assert(rest[j] == sorted[j + 1]);
        }
        if p < sorted.len() {
            assert(rest[p - 1] == sorted[p]);
        }
        lemma_board_position(rest, x, p - 1);
    }
}

/// Whether board `a` comes strictly before board `b`.
fn board_before(a: &SdoBoardDef, b: &SdoBoardDef) -> (before: bool)
    ensures
        before == board_lt(board_view(*a), board_view(*b)),
{
    match compare_text(a.name.as_str(), b.name.as_str()) {
        TextOrder::Less => true,
        TextOrder::Equal => a.message_id < b.message_id,
        TextOrder::Greater => {
            proof {
                lemma_text_lt_asymmetric(b.name@, a.name@);
            }
            false
        },
    }
}

/// The boards by name, then message id, a stable sort.
fn sort_board_list(boards: Vec<SdoBoardDef>) -> (sorted: Vec<SdoBoardDef>)
    ensures
        board_views(sorted@) == sort_boards(board_views(boards@)),
        boards_sorted(board_views(sorted@)),
{
    let ghost input = boards@;
    assert(input.len() == boards.len());
    let mut rest = boards;
    let mut out: Vec<SdoBoardDef> = Vec::new();
    let mut taken: usize = 0;
    while rest.len() > 0
        invariant
            input.len() <= usize::MAX,
            taken + rest@.len() == input.len(),
            rest@ == input.subrange(taken as int, input.len() as int),
            board_views(out@) == sort_boards(board_views(input.subrange(0, taken as int))),
            boards_sorted(board_views(out@)),
        decreases rest.len(),
    {
        let x = rest.remove(0);
        let mut pos: usize = 0;
        while pos < out.len() && !board_before(&x, &out[pos])
            invariant
                pos <= out@.len(),
                forall|j: int| 0 <= j < pos ==> !board_lt(board_view(x), #[trigger] board_view(out@[j])),
            decreases out.len() - pos,
        {
            pos = pos + 1;
        }
        let ghost before = out@;
        out.insert(pos, x);
        proof {
            let vb = board_views(before);
            let va = board_views(out@);
            let xv = board_view(x);
            assert(va =~= vb.insert(pos as int, xv));
            assert forall|j: int| 0 <= j < pos implies !board_lt(xv, #[trigger] vb[j]) by {
                assert(vb[j] == board_view(before[j]));
            }
            if pos < before.len() {
                assert(vb[pos as int] == board_view(before[pos as int]));
            }
            lemma_board_position(vb, xv, pos as int);
            assert(x == input[taken as int]);
            let grown = board_views(input.subrange(0, taken + 1));
            assert(grown.drop_last() =~= board_views(input.subrange(0, taken as int)));
            assert(grown.last() == xv);
            assert forall|a: int, b: int| 0 <= a < b < va.len() implies !board_lt(va[b], va[a]) by {
                if a < pos && b == pos {
                    assert(va[a] == vb[a]);
                } else if a == pos && b > pos {
                    assert(va[b] == vb[b - 1]);
                    if board_lt(va[b], xv) {
                        assert(board_lt(xv, vb[pos as int]));
                        lemma_board_lt_transitive(va[b], xv, vb[pos as int]);
                        if b - 1 > pos {
                            assert(!board_lt(vb[b - 1], vb[pos as int]));
                        } else {
                            lemma_board_lt_asymmetric(xv, vb[pos as int]);
                        }
                    }
                } else if a < pos && b > pos {
                    assert(va[a] == vb[a]);
                    assert(va[b] == vb[b - 1]);
                } else if b < pos {
                    assert(va[a] == vb[a]);
                    assert(va[b] == vb[b]);
                } else {
                    assert(va[a] == vb[a - 1]);
                    assert(va[b] == vb[b - 1]);
                }
            }
            assert(rest@ == input.subrange(taken + 1, input.len() as int));
        }
        taken = taken + 1;
    }
    assert(input.subrange(0, input.len() as int) == input);
    out
}

/// The sender that the annotations give for message `id`.
fn sender_of(senders: &BTreeMap<u32, String>, id: u32) -> (sender: Option<String>)
    ensures
        match sender {
            Some(s) => senders@.contains_key(id) && s@ == senders@[id]@,
            None => !senders@.contains_key(id),
        },
{
    broadcast use vstd::laws_cmp::group_laws_cmp, vstd::std_specs::btree::group_btree_axioms;

    match senders.get(&id) {
        Some(s) => Some(s.clone()),
        None => None,
    }
}

fn insert_message(messages: &mut BTreeMap<u32, MessageDef>, id: u32, def: MessageDef)
    ensures
        final(messages)@ == old(messages)@.insert(id, def),
{
    broadcast use vstd::laws_cmp::group_laws_cmp;

    messages.insert(id, def);
}

/// Sorted boards are in text order of their names: a later board never has
/// a name that comes before an earlier one's, boards of the same name come
/// by message id, and so a board whose name comes first is listed first,
/// whatever the message ids.
pub proof fn law_boards_by_name(bs: Seq<BoardView>)
    requires
        boards_sorted(bs),
    ensures
        forall|i: int, j: int|
            #![trigger bs[i], bs[j]]
            0 <= i < j < bs.len() ==> !text_lt(bs[j].name, bs[i].name) && (bs[i].name == bs[j].name
                ==> bs[i].message_id <= bs[j].message_id),
        forall|i: int, j: int|
            #![trigger bs[i], bs[j]]
            0 <= i < bs.len() && 0 <= j < bs.len() && text_lt(bs[i].name, bs[j].name) ==> i < j,
{
    assert forall|i: int, j: int|
        #![trigger bs[i], bs[j]]
        0 <= i < j < bs.len() implies !text_lt(bs[j].name, bs[i].name) && (bs[i].name == bs[j].name
            ==> bs[i].message_id <= bs[j].message_id) by {
        assert(!board_lt(bs[j], bs[i]));
    }
    assert forall|i: int, j: int|
        #![trigger bs[i], bs[j]]
        0 <= i < bs.len() && 0 <= j < bs.len() && text_lt(bs[i].name, bs[j].name) implies i < j by {
        lemma_text_lt_irreflexive(bs[i].name);
        if j < i {
            assert(!board_lt(bs[i], bs[j]));
        }
    }
}

/// The variables come by non-decreasing id.
pub open spec fn ids_ascending(vs: Seq<VariableView>) -> bool {
    forall|j: int, k: int| 0 <= j <= k < vs.len() ==> vs[j].id <= vs[k].id
}

/// Board `b` is one that an SDO message of `messages` describes: it has
/// that message's id and is named for its sender.
pub open spec fn board_of_message(b: BoardView, messages: Seq<MessageInfo>, senders: Map<u32, Seq<char>>) -> bool {
    exists|k: int|
        0 <= k < messages.len() && #[trigger] messages[k].id == b.message_id && is_sdo_message(messages[k])
            && b.name == message_sender(senders, messages[k])
}

proof fn lemma_id_position_bounds(sorted: Seq<VariableView>, x: VariableView)
    ensures
        0 <= id_position(sorted, x) <= sorted.len(),
        forall|j: int| 0 <= j < id_position(sorted, x) ==> sorted[j].id <= x.id,
        id_position(sorted, x) < sorted.len() ==> x.id < sorted[id_position(sorted, x)].id,
    decreases sorted.len(),
{
    if sorted.len() > 0 && !(x.id < sorted[0].id) {
        let rest = sorted.drop_first();
        lemma_id_position_bounds(rest, x);
        let p = id_position(sorted, x);
        assert forall|j: int| 0 <= j < p implies sorted[j].id <= x.id by {
            if j > 0 {
                assert(sorted[j] == rest[j - 1]);
            }
        }
        if p < sorted.len() {
            assert(sorted[p] == rest[p - 1]);
        }
    }
}

proof fn lemma_sort_by_id(vs: Seq<VariableView>)
    ensures
        sort_by_id(vs).len() == vs.len(),
        ids_ascending(sort_by_id(vs)),
    decreases vs.len(),
{
    if vs.len() > 0 {
        let sorted = sort_by_id(vs.drop_last());
        let x = vs.last();
        lemma_sort_by_id(vs.drop_last());
        lemma_id_position_bounds(sorted, x);
        let p = id_position(sorted, x);
        sorted.insert_ensures(p, x);
        let r = sorted.insert(p, x);
        assert forall|j: int, k: int| 0 <= j <= k < r.len() implies r[j].id <= r[k].id by {
            if k < p {
                assert(r[j] == sorted[j] && r[k] == sorted[k]);
            } else if k == p {
                if j < p {
                    assert(r[j] == sorted[j]);
                }
            } else {
                assert(r[k] == sorted[k - 1]);
                if j < p {
                    assert(r[j] == sorted[j]);
                } else if j == p {
                    assert(x.id < sorted[p].id);
                } else {
                    assert(r[j] == sorted[j - 1]);
                }
            }
        }
    }
}

proof fn lemma_board_position_bounds(sorted: Seq<BoardView>, x: BoardView)
    ensures
        0 <= board_position(sorted, x) <= sorted.len(),
    decreases sorted.len(),
{
    if sorted.len() > 0 && !board_lt(x, sorted[0]) {
        lemma_board_position_bounds(sorted.drop_first(), x);
    }
}

proof fn lemma_sort_boards_members(bs: Seq<BoardView>)
    ensures
        sort_boards(bs).len() == bs.len(),
        forall|i: int| 0 <= i < bs.len() ==> bs.contains(#[trigger] sort_boards(bs)[i]),
    decreases bs.len(),
{
    if bs.len() > 0 {
        let rest = bs.drop_last();
        let sorted = sort_boards(rest);
        let x = bs.last();
        lemma_sort_boards_members(rest);
        lemma_board_position_bounds(sorted, x);
        let p = board_position(sorted, x);
        sorted.insert_ensures(p, x);
        assert forall|i: int| 0 <= i < bs.len() implies bs.contains(#[trigger] sort_boards(bs)[i]) by {
            let r = sorted.insert(p, x);
            if i == p {
                assert(bs[bs.len() - 1] == x);
            } else {
                let q = if i < p { i } else { i - 1 };
                assert(r[i] == sorted[q]);
                assert(rest.contains(sorted[q]));
                let w = choose|w: int| 0 <= w < rest.len() && rest[w] == sorted[q];
                assert(bs[w] == rest[w]);
            }
        }
    }
}

proof fn lemma_described_boards(
    messages: Seq<MessageInfo>,
    senders: Map<u32, Seq<char>>,
    tables: Seq<(u32, Seq<char>, Map<i64, Seq<char>>)>,
)
    ensures
        forall|i: int|
            0 <= i < described_boards(messages, senders, tables).len() ==> exists|k: int|
                0 <= k < messages.len() && spec_sdo_board(messages[k], message_sender(senders, messages[k]), tables)
                    == Some(#[trigger] described_boards(messages, senders, tables)[i]),
    decreases messages.len(),
{
    if messages.len() > 0 {
        let rest = messages.drop_last();
        lemma_described_boards(rest, senders, tables);
        let prev = described_boards(rest, senders, tables);
        let d = described_boards(messages, senders, tables);
        assert forall|i: int| 0 <= i < d.len() implies exists|k: int|
            0 <= k < messages.len() && spec_sdo_board(messages[k], message_sender(senders, messages[k]), tables)
                == Some(#[trigger] d[i]) by {
            if i < prev.len() {
                assert(d[i] == prev[i]);
                let k = choose|k: int|
                    0 <= k < rest.len() && spec_sdo_board(rest[k], message_sender(senders, rest[k]), tables)
                        == Some(prev[i]);
                assert(messages[k] == rest[k]);
            } else {
                let k = messages.len() - 1;
                assert(messages[k] == messages.last());
            }
        }
    }
}

/// Each board of a database built from a generated message table (as
/// `Database::from_generated` builds it) has at least one variable, its
/// variables come by non-decreasing id, and it carries the id of an SDO
/// message and is named for that message's sender.
pub proof fn law_boards_well_formed(
    messages: Seq<MessageInfo>,
    senders: Map<u32, Seq<char>>,
    tables: Seq<(u32, Seq<char>, Map<i64, Seq<char>>)>,
)
    ensures
        forall|i: int|
            0 <= i < sort_boards(described_boards(messages, senders, tables)).len() ==> {
                &&& #[trigger] sort_boards(described_boards(messages, senders, tables))[i].variables.len() > 0
                &&& ids_ascending(sort_boards(described_boards(messages, senders, tables))[i].variables)
                &&& board_of_message(sort_boards(described_boards(messages, senders, tables))[i], messages, senders)
            },
{
    let d = described_boards(messages, senders, tables);
    let s = sort_boards(d);
    lemma_sort_boards_members(d);
    lemma_described_boards(messages, senders, tables);
    assert forall|i: int| 0 <= i < s.len() implies {
        &&& #[trigger] s[i].variables.len() > 0
        &&& ids_ascending(s[i].variables)
        &&& board_of_message(s[i], messages, senders)
    } by {
        let b = s[i];
        assert(d.contains(b));
        let w = choose|w: int| 0 <= w < d.len() && d[w] == b;
        let k = choose|k: int|
            0 <= k < messages.len() && spec_sdo_board(messages[k], message_sender(senders, messages[k]), tables)
                == Some(#[trigger] d[w]);
        let m = messages[k];
        lemma_sort_by_id(signal_variables(m.id, m.signals@, tables));
        assert(b.variables == sort_by_id(signal_variables(m.id, m.signals@, tables)));
        assert(messages[k].id == b.message_id);
    }
}

impl Database {
    /// The database of a DBC: its nodes and messages, and its SDO boards
    /// sorted by name then message id, from the generated message table and
    /// the annotations of the DBC text.
    pub fn from_generated(path: String, annotations: DbcAnnotations, messages: &Vec<MessageInfo>) -> (database: Database)
        ensures
            database.path@ == path@,
            texts(database.nodes@) == texts(annotations.nodes@),
            def_names(database.messages@) == message_names(messages@),
            board_views(database.sdo_boards@) == sort_boards(
                described_boards(messages@, text_map(annotations.senders@), table_views(annotations.value_tables@)),
            ),
            boards_sorted(board_views(database.sdo_boards@)),
    {
        let ghost senders = text_map(annotations.senders@);
        let ghost tables = table_views(annotations.value_tables@);
        let mut names: BTreeMap<u32, MessageDef> = BTreeMap::new();
        let mut boards: Vec<SdoBoardDef> = Vec::new();
        assert(def_names(names@) =~= message_names(Seq::<MessageInfo>::empty()));
        let mut i: usize = 0;
        while i < messages.len()
            invariant
                i <= messages@.len(),
                senders == text_map(annotations.senders@),
                tables == table_views(annotations.value_tables@),
                def_names(names@) == message_names(messages@.subrange(0, i as int)),
                board_views(boards@) == described_boards(messages@.subrange(0, i as int), senders, tables),
            decreases messages.len() - i,
        {
            let message = &messages[i];
            let ghost prefix = messages@.subrange(0, i + 1);
            assert(prefix.drop_last() =~= messages@.subrange(0, i as int));
            assert(prefix.last() == *message);
            let sender = match sender_of(&annotations.senders, message.id) {
                Some(s) => s,
                None => inferred_sender(message.name.as_str()),
            };
            proof {
                if annotations.senders@.contains_key(message.id) {
                    assert(senders.contains_key(message.id));
                    assert(senders[message.id] == annotations.senders@[message.id]@);
                } else {
                    assert(!senders.contains_key(message.id));
                }
            }
            assert(sender@ == message_sender(senders, *message));
            let ghost before = names@;
            insert_message(&mut names, message.id, MessageDef { name: message.name.clone() });
            assert(def_names(names@) =~= def_names(before).insert(message.id, message.name@));
            match sdo_board(message, sender, &annotations.value_tables) {
                Some(board) => {
                    let ghost prev = boards@;
                    boards.push(board);
                    assert(board_views(boards@) =~= board_views(prev).push(board_view(board)));
                },
                None => {},
            }
            i = i + 1;
        }
        assert(messages@.subrange(0, messages@.len() as int) =~= messages@);
        let sdo_boards = sort_board_list(boards);
        Database { path, nodes: annotations.nodes, messages: names, sdo_boards }
    }
}

/// Why a DBC could not be loaded.
#[derive(Clone, Copy, Debug, PartialEq, Eq, Structural)]
pub enum LoadError {
    /// The DBC is not the one the message table was generated from.
    SourceMismatch,
    /// The DBC is not UTF-8 text.
    NotUtf8,
    /// The DBC text could not be read.
    Annotations(DbcError),
}

/// The text that `raw` encodes, when it is UTF-8 (`std::str::from_utf8`).
#[verifier::external_body]
fn utf8_text(raw: &[u8]) -> (text: Option<String>)
    ensures
        match text {
            Some(t) => valid_utf8(raw@) && t@ == decode_utf8(raw@),
            None => !valid_utf8(raw@),
        },
{
    match std::str::from_utf8(raw) {
        Ok(t) => Some(t.to_string()),
        Err(_) => None,
    }
}

/// Whether two byte strings are equal.
fn same_bytes(a: &[u8], b: &[u8]) -> (same: bool)
    ensures
        same == (a@ == b@),
{
    if a.len() != b.len() {
        return false;
    }
    let mut i: usize = 0;
    while i < a.len()
        invariant
            a@.len() == b@.len(),
            i <= a@.len(),
            forall|j: int| 0 <= j < i ==> a@[j] == b@[j],
        decreases a.len() - i,
    {
        if a[i] != b[i] {
            return false;
        }
        i = i + 1;
    }
    assert(a@ =~= b@);
    true
}

impl Database {
    /// The database of the DBC whose bytes are `raw`, read from `path`: it
    /// must be the DBC `source` that the message table `messages` was
    /// generated from, and UTF-8 text whose annotations can be read.
    pub fn load(path: String, raw: &[u8], source: &[u8], messages: &Vec<MessageInfo>) -> (result: Result<Database, LoadError>)
        ensures
            raw@ != source@ ==> result == Err::<Database, LoadError>(LoadError::SourceMismatch),
            raw@ == source@ && !valid_utf8(raw@) ==> result == Err::<Database, LoadError>(LoadError::NotUtf8),
            raw@ == source@ && valid_utf8(raw@) ==> match spec_annotations(decode_utf8(raw@)) {
                Err(e) => result == Err::<Database, LoadError>(LoadError::Annotations(e)),
                Ok((nodes, senders, tables)) => result matches Ok(db) && db.path@ == path@ && texts(db.nodes@)
                    == nodes && def_names(db.messages@) == message_names(messages@) && board_views(
                    db.sdo_boards@,
                ) == sort_boards(described_boards(messages@, senders, tables)),
            },
    {
        if !same_bytes(raw, source) {
            return Err(LoadError::SourceMismatch);
        }
        let text = match utf8_text(raw) {
            Some(t) => t,
            None => return Err(LoadError::NotUtf8),
        };
        let annotations = match DbcAnnotations::parse(text.as_str()) {
            Ok(a) => a,
            Err(e) => return Err(LoadError::Annotations(e)),
        };
        Ok(Database::from_generated(path, annotations, messages))
    }
}

} // verus!
