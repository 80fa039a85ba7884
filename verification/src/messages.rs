//! The message table of a DBC text: its messages (`BO_`), their signals
//! (`SG_`) and which signals are floats (`SIG_VALTYPE_`). Scaling factors
//! and offsets are kept as the text the DBC writes them in.
use vstd::prelude::*;

use crate::annotations::{
    find_char, find_char_at, lemma_find_char, words_at, words_from, DbcError, ReadingView,
};
use crate::exports::texts;
use crate::text::{
    chars_of, has_prefix, parse_u32_at, parse_u64_at, spec_parse_u32, spec_parse_u64,
    starts_with_at, string_of, sub_chars, trim, trim_bounds,
};

verus! {

/// A signal as the DBC text writes it.
#[derive(Clone, Debug)]
pub struct SignalText {
    pub name: String,
    pub multiplexor: bool,
    pub switch_value: Option<u64>,
    pub start_bit: u16,
    pub bit_length: u16,
    pub signed: bool,
    pub floating: bool,
    pub factor: String,
    pub offset: String,
    pub unit: String,
}

/// A message as the DBC text writes it, with its signals in order.
#[derive(Clone, Debug)]
pub struct MessageText {
    pub id: u32,
    pub name: String,
    pub signals: Vec<SignalText>,
}

/// A signal by the text of its parts.
pub struct SignalView {
    pub name: Seq<char>,
    pub multiplexor: bool,
    pub switch_value: Option<u64>,
    pub start_bit: u16,
    pub bit_length: u16,
    pub signed: bool,
    pub floating: bool,
    pub factor: Seq<char>,
    pub offset: Seq<char>,
    pub unit: Seq<char>,
}

/// A message by the text of its parts.
pub struct MessageView {
    pub id: u32,
    pub name: Seq<char>,
    pub signals: Seq<SignalView>,
}

/// The view of a signal.
pub open spec fn signal_view(s: SignalText) -> SignalView {
    SignalView {
        name: s.name@,
        multiplexor: s.multiplexor,
        switch_value: s.switch_value,
        start_bit: s.start_bit,
        bit_length: s.bit_length,
        signed: s.signed,
        floating: s.floating,
        factor: s.factor@,
        offset: s.offset@,
        unit: s.unit@,
    }
}

/// The views of signals.
pub open spec fn signal_views(ss: Seq<SignalText>) -> Seq<SignalView> {
    ss.map_values(|s: SignalText| signal_view(s))
}

/// The view of a message.
pub open spec fn message_view(m: MessageText) -> MessageView {
    MessageView { id: m.id, name: m.name@, signals: signal_views(m.signals@) }
}

/// The views of messages.
pub open spec fn message_views(ms: Seq<MessageText>) -> Seq<MessageView> {
    ms.map_values(|m: MessageText| message_view(m))
}

/// What a multiplexer indicator says: `M` marks the multiplexor, `m<n>` a
/// signal sent when the multiplexor is `n`, `m<n>M` both.
pub open spec fn mux_of(w: Seq<char>) -> Option<(bool, Option<u64>)> {
    if w == seq!['M'] {
        Some((true, None))
    } else if w.len() >= 2 && w[0] == 'm' {
        let both = w.last() == 'M';
        let digits = if both {
            w.subrange(1, w.len() - 1)
        } else {
            w.subrange(1, w.len() as int)
        };
        match spec_parse_u64(digits) {
            Some(n) => Some((both, Some(n))),
            None => None,
        }
    } else {
        None
    }
}

/// A number that fits in 16 bits.
pub open spec fn spec_parse_u16(s: Seq<char>) -> Option<u16> {
    match spec_parse_u32(s) {
        Some(n) => if n <= 0xffff {
            Some(n as u16)
        } else {
            None
        },
        None => None,
    }
}

/// What `<start>|<length>@<order><sign>` says: start bit, length, and
/// whether the signal is signed (`-`).
pub open spec fn layout_of(w: Seq<char>) -> Option<(u16, u16, bool)> {
    let bar = find_char(w, 0, '|');
    let at = find_char(w, bar + 1, '@');
    if bar < w.len() && at < w.len() && at + 3 == w.len() && (w[at + 1] == '0' || w[at + 1] == '1')
        && (w[at + 2] == '+' || w[at + 2] == '-') {
        match (spec_parse_u16(w.subrange(0, bar)), spec_parse_u16(w.subrange(bar + 1, at))) {
            (Some(start), Some(length)) => Some((start, length, w[at + 2] == '-')),
            _ => None,
        }
    } else {
        None
    }
}

/// What `(<factor>,<offset>)` says: the two texts.
pub open spec fn scale_of(w: Seq<char>) -> Option<(Seq<char>, Seq<char>)> {
    let comma = find_char(w, 1, ',');
    if w.len() >= 2 && w[0] == '(' && w.last() == ')' && comma < w.len() - 1 {
        Some((w.subrange(1, comma), w.subrange(comma + 1, w.len() - 1)))
    } else {
        None
    }
}

/// The unit of a signal line: the text between its first two double quotes.
pub open spec fn unit_of(l: Seq<char>) -> Option<Seq<char>> {
    let q1 = find_char(l, 0, '"');
    let q2 = find_char(l, q1 + 1, '"');
    if q1 < l.len() && q2 < l.len() {
        Some(l.subrange(q1 + 1, q2))
    } else {
        None
    }
}

/// The signal that a trimmed `SG_ <name> [<mux>] : <layout> <scale> ...
/// "<unit>" ...` line defines (not yet marked as a float).
pub open spec fn signal_line(l: Seq<char>) -> Option<SignalView> {
    let w = words_from(l, 4);
    let plain = w.len() >= 2 && w[1] == seq![':'];
    let r: int = if plain { 2 } else { 3 };
    let mux = if plain { Some((false, None::<u64>)) } else if w.len() >= 3 && w[2] == seq![':'] { mux_of(w[1]) } else { None };
    if w.len() < r + 2 {
        None
    } else {
        match (mux, layout_of(w[r]), scale_of(w[r + 1]), unit_of(l)) {
            (Some((multiplexor, switch_value)), Some((start_bit, bit_length, signed)), Some((factor, offset)), Some(unit)) => Some(
                SignalView {
                    name: w[0],
                    multiplexor,
                    switch_value,
                    start_bit,
                    bit_length,
                    signed,
                    floating: false,
                    factor,
                    offset,
                    unit,
                },
            ),
            _ => None,
        }
    }
}

/// A message name without the `:` that ends it in a `BO_` line.
pub open spec fn message_name(w: Seq<char>) -> Seq<char> {
    if w.len() > 0 && w.last() == ':' {
        w.drop_last()
    } else {
        w
    }
}

/// The messages read so far, and the value types declared so far: message
/// id, signal and whether it is a float.
pub struct TableView {
    pub messages: Seq<MessageView>,
    pub value_types: Seq<(u32, Seq<char>, bool)>,
}

/// What one trimmed line adds to the message table read so far.
pub open spec fn table_line(t: TableView, l: Seq<char>) -> Result<TableView, DbcError> {
    if has_prefix(l, seq!['B', 'O', '_', ' ']) {
        let w = words_from(l, 4);
        if w.len() < 2 {
            Err(DbcError::MalformedMessage)
        } else {
            match spec_parse_u32(w[0]) {
                Some(id) => Ok(
                    TableView {
                        messages: t.messages.push(MessageView { id, name: message_name(w[1]), signals: Seq::empty() }),
                        ..t
                    },
                ),
                None => Err(DbcError::InvalidNumber),
            }
        }
    } else if has_prefix(l, seq!['S', 'G', '_', ' ']) {
        match signal_line(l) {
            Some(s) => if t.messages.len() > 0 {
                let last = t.messages.last();
                Ok(
                    TableView {
                        messages: t.messages.drop_last().push(MessageView { signals: last.signals.push(s), ..last }),
                        ..t
                    },
                )
            } else {
                Err(DbcError::MalformedSignal)
            },
            None => Err(DbcError::MalformedSignal),
        }
    } else if has_prefix(l, seq!['S', 'I', 'G', '_', 'V', 'A', 'L', 'T', 'Y', 'P', 'E', '_', ' ']) {
        let w = words_from(l, 13);
        if w.len() < 4 || w[3].len() == 0 {
            Ok(t)
        } else {
            match spec_parse_u32(w[0]) {
                Some(id) => Ok(
                    TableView { value_types: t.value_types.push((id, w[1], w[3][0] == '1' || w[3][0] == '2')), ..t },
                ),
                None => Err(DbcError::InvalidNumber),
            }
        }
    } else {
        Ok(t)
    }
}

/// The message table read from the lines of `s` that start at or after `i`.
pub open spec fn table_from(t: TableView, s: Seq<char>, i: int) -> Result<TableView, DbcError>
    decreases s.len() - i,
{
    if i < 0 || i >= s.len() {
        Ok(t)
    } else {
        let e = find_char(s, i, '\n');
        match table_line(t, trim(s.subrange(i, e))) {
            Err(x) => Err(x),
            Ok(next) => if e < s.len() {
                proof {
                    lemma_find_char(s, i, '\n');
                }
                table_from(next, s, e + 1)
            } else {
                Ok(next)
            },
        }
    }
}

/// Whether the last value type declared for signal `name` of message `id`
/// makes it a float.
pub open spec fn is_float_signal(types: Seq<(u32, Seq<char>, bool)>, id: u32, name: Seq<char>) -> bool
    decreases types.len(),
{
    if types.len() == 0 {
        false
    } else if types.last().0 == id && types.last().1 == name {
        types.last().2
    } else {
        is_float_signal(types.drop_last(), id, name)
    }
}

/// A signal of message `id`, marked as a float when the value types say so.
pub open spec fn mark_signal(types: Seq<(u32, Seq<char>, bool)>, id: u32, s: SignalView) -> SignalView {
    SignalView { floating: is_float_signal(types, id, s.name), ..s }
}

/// The signals of message `id`, marked.
pub open spec fn marked_signals(types: Seq<(u32, Seq<char>, bool)>, id: u32, ss: Seq<SignalView>) -> Seq<SignalView> {
    ss.map_values(|s: SignalView| mark_signal(types, id, s))
}

/// A message with its float signals marked.
pub open spec fn with_types(m: MessageView, types: Seq<(u32, Seq<char>, bool)>) -> MessageView {
    MessageView { signals: marked_signals(types, m.id, m.signals), ..m }
}

/// The messages with their float signals marked.
pub open spec fn marked_messages(types: Seq<(u32, Seq<char>, bool)>, ms: Seq<MessageView>) -> Seq<MessageView> {
    ms.map_values(|m: MessageView| with_types(m, types))
}

/// The message table of a DBC text, or the first error.
pub open spec fn spec_message_table(raw: Seq<char>) -> Result<Seq<MessageView>, DbcError> {
    match table_from(TableView { messages: Seq::empty(), value_types: Seq::empty() }, raw, 0) {
        Ok(t) => Ok(marked_messages(t.value_types, t.messages)),
        Err(e) => Err(e),
    }
}

/// The characters of a word, and its text.
fn word_chars(words: &Vec<String>, i: usize) -> (chars: Vec<char>)
    requires
        i < words@.len(),
    ensures
        chars@ == words@[i as int]@,
{
    chars_of(words[i].as_str())
}

fn mux_word(w: &Vec<char>) -> (mux: Option<(bool, Option<u64>)>)
    ensures
        mux == mux_of(w@),
{
    let n = w.len();
    if n == 1 && w[0] == 'M' {
        assert(w@ =~= seq!['M']);
        return Some((true, None));
    }
    proof {
        if w@ == seq!['M'] {
            assert(w@.len() == 1);
        }
    }
    if n >= 2 && w[0] == 'm' {
        let both = w[n - 1] == 'M';
        let end = if both { n - 1 } else { n };
        match parse_u64_at(w, 1, end) {
            Some(v) => Some((both, Some(v))),
            None => None,
        }
    } else {
        None
    }
}

fn u16_at(w: &Vec<char>, from: usize, to: usize) -> (value: Option<u16>)
    requires
        from <= to <= w@.len(),
    ensures
        value == spec_parse_u16(w@.subrange(from as int, to as int)),
{
    match parse_u32_at(w, from, to) {
        Some(v) => if v <= 0xffff {
            Some(v as u16)
        } else {
            None
        },
        None => None,
    }
}

fn layout_word(w: &Vec<char>) -> (layout: Option<(u16, u16, bool)>)
    ensures
        layout == layout_of(w@),
{
    let n = w.len();
    let bar = find_char_at(w, 0, '|');
    if bar >= n {
        return None;
    }
    let at = find_char_at(w, bar + 1, '@');
    if at >= n || n - at != 3 {
        return None;
    }
    if !(w[at + 1] == '0' || w[at + 1] == '1') || !(w[at + 2] == '+' || w[at + 2] == '-') {
        return None;
    }
    let start = u16_at(w, 0, bar);
    let length = u16_at(w, bar + 1, at);
    match (start, length) {
        (Some(start), Some(length)) => Some((start, length, w[at + 2] == '-')),
        _ => None,
    }
}

fn scale_word(w: &Vec<char>) -> (scale: Option<(String, String)>)
    ensures
        match scale_of(w@) {
            Some((f, o)) => scale matches Some((a, b)) && a@ == f && b@ == o,
            None => scale is None,
        },
{
    let n = w.len();
    if n < 2 || w[0] != '(' || w[n - 1] != ')' {
        proof {
            if n >= 1 {
                lemma_find_char(w@, 1, ',');
            }
        }
        return None;
    }
    let comma = find_char_at(w, 1, ',');
    if comma >= n - 1 {
        return None;
    }
    Some((string_of(w, 1, comma), string_of(w, comma + 1, n - 1)))
}

fn unit_in(l: &Vec<char>) -> (unit: Option<String>)
    ensures
        match unit_of(l@) {
            Some(u) => unit matches Some(x) && x@ == u,
            None => unit is None,
        },
{
    let q1 = find_char_at(l, 0, '"');
    if q1 >= l.len() {
        return None;
    }
    let q2 = find_char_at(l, q1 + 1, '"');
    if q2 >= l.len() {
        return None;
    }
    Some(string_of(l, q1 + 1, q2))
}

fn same_chars(a: &Vec<char>, b: &str) -> (same: bool)
    ensures
        same == (a@ == b@),
{
    let bc = chars_of(b);
    if a.len() != bc.len() {
        return false;
    }
    let mut i: usize = 0;
    while i < a.len()
        invariant
            a@.len() == bc@.len(),
            bc@ == b@,
            i <= a@.len(),
            forall|j: int| 0 <= j < i ==> a@[j] == bc@[j],
        decreases a.len() - i,
    {
        if a[i] != bc[i] {
            return false;
        }
        i = i + 1;
    }
    assert(a@ =~= bc@);
    true
}

/// The signal that a trimmed `SG_` line defines.
fn signal_of_line(l: &Vec<char>) -> (signal: Option<SignalText>)
    requires
        4 <= l@.len(),
    ensures
        match signal_line(l@) {
            Some(v) => signal matches Some(x) && signal_view(x) == v,
            None => signal is None,
        },
{
    let words = words_at(l, 4);
    let ghost w = texts(words@);
    assert(w.len() == words@.len());
    if words.len() < 2 {
        return None;
    }
    proof {
        reveal_strlit(":");
        assert(":"@ =~= seq![':']);
    }
    let second = word_chars(&words, 1);
    let plain = same_chars(&second, ":");
    assert(w[1] == words@[1]@);
    let r: usize = if plain { 2 } else { 3 };
    let mux = if plain {
        Some((false, None))
    } else if words.len() >= 3 && same_chars(&word_chars(&words, 2), ":") {
        mux_word(&second)
    } else {
        None
    };
    proof {
        if words.len() >= 3 {
            assert(w[2] == words@[2]@);
        }
    }
    if words.len() < r + 2 {
        return None;
    }
    let layout = layout_word(&word_chars(&words, r));
    let scale = scale_word(&word_chars(&words, r + 1));
    let unit = unit_in(l);
    proof {
        assert(w[r as int] == words@[r as int]@);
        assert(w[r + 1] == words@[r + 1]@);
        assert(w[0] == words@[0]@);
    }
    match (mux, layout, scale, unit) {
        (Some((multiplexor, switch_value)), Some((start_bit, bit_length, signed)), Some((factor, offset)), Some(unit)) => {
            Some(
                SignalText {
                    name: words[0].clone(),
                    multiplexor,
                    switch_value,
                    start_bit,
                    bit_length,
                    signed,
                    floating: false,
                    factor,
                    offset,
                    unit,
                },
            )
        },
        _ => None,
    }
}

struct TableReading {
    messages: Vec<MessageText>,
    value_types: Vec<(u32, String, bool)>,
}

spec fn type_views(ts: Seq<(u32, String, bool)>) -> Seq<(u32, Seq<char>, bool)> {
    ts.map_values(|t: (u32, String, bool)| (t.0, t.1@, t.2))
}

spec fn reading_view(t: TableReading) -> TableView {
    TableView { messages: message_views(t.messages@), value_types: type_views(t.value_types@) }
}

/// Reads one trimmed line into `reading`.
fn table_line_into(reading: &mut TableReading, l: &Vec<char>) -> (result: Result<(), DbcError>)
    ensures
        match table_line(reading_view(*old(reading)), l@) {
            Ok(next) => result is Ok && reading_view(*final(reading)) == next,
            Err(e) => result == Err::<(), DbcError>(e),
        },
{
    let n = l.len();
    proof {
        reveal_strlit("BO_ ");
        reveal_strlit("SG_ ");
        reveal_strlit("SIG_VALTYPE_ ");
        assert(l@.subrange(0, n as int) == l@);
        assert("BO_ "@ =~= seq!['B', 'O', '_', ' ']);
        assert("SG_ "@ =~= seq!['S', 'G', '_', ' ']);
        assert("SIG_VALTYPE_ "@ =~= seq!['S', 'I', 'G', '_', 'V', 'A', 'L', 'T', 'Y', 'P', 'E', '_', ' ']);
    }
    if starts_with_at(l, 0, n, "BO_ ") {
        let words = words_at(l, 4);
        let ghost w = texts(words@);
        if words.len() < 2 {
            return Err(DbcError::MalformedMessage);
        }
        let first = word_chars(&words, 0);
        assert(first@.subrange(0, first@.len() as int) == first@);
        let id = match parse_u32_at(&first, 0, first.len()) {
            Some(id) => id,
            None => return Err(DbcError::InvalidNumber),
        };
        let second = word_chars(&words, 1);
        let k = second.len();
        let name = if k > 0 && second[k - 1] == ':' {
            string_of(&second, 0, k - 1)
        } else {
            string_of(&second, 0, k)
        };
        proof {
            assert(second@.subrange(0, k as int) == second@);
            assert(second@.subrange(0, k - 1) == second@.drop_last());
        }
        let ghost before = reading.messages@;
        reading.messages.push(MessageText { id, name, signals: Vec::new() });
        assert(message_views(reading.messages@) =~= message_views(before).push(
            MessageView { id, name: message_name(w[1]), signals: Seq::empty() },
        )) by {
            assert(signal_views(Seq::<SignalText>::empty()) =~= Seq::<SignalView>::empty());
        }
        return Ok(());
    }
    if starts_with_at(l, 0, n, "SG_ ") {
        let signal = match signal_of_line(l) {
            Some(s) => s,
            None => return Err(DbcError::MalformedSignal),
        };
        if reading.messages.len() == 0 {
            return Err(DbcError::MalformedSignal);
        }
        let ghost before = reading.messages@;
        let mut last = reading.messages.pop().unwrap();
        assert(before.drop_last() == reading.messages@);
        let ghost last_before = last;
        last.signals.push(signal);
        reading.messages.push(last);
        proof {
            let lv = message_view(last_before);
            assert(signal_views(last.signals@) =~= lv.signals.push(signal_view(signal)));
            assert(message_views(reading.messages@) =~= message_views(before).drop_last().push(
                MessageView { signals: lv.signals.push(signal_view(signal)), ..lv },
            ));
        }
        return Ok(());
    }
    if starts_with_at(l, 0, n, "SIG_VALTYPE_ ") {
        let words = words_at(l, 13);
        let ghost w = texts(words@);
        if words.len() < 4 {
            return Ok(());
        }
        let fourth = word_chars(&words, 3);
        if fourth.len() == 0 {
            return Ok(());
        }
        let first = word_chars(&words, 0);
        assert(first@.subrange(0, first@.len() as int) == first@);
        let id = match parse_u32_at(&first, 0, first.len()) {
            Some(id) => id,
            None => return Err(DbcError::InvalidNumber),
        };
        let float = fourth[0] == '1' || fourth[0] == '2';
        let signal = words[1].clone();
        let ghost before = reading.value_types@;
        reading.value_types.push((id, signal, float));
        assert(type_views(reading.value_types@) =~= type_views(before).push((id, w[1], float)));
        return Ok(());
    }
    Ok(())
}

/// Whether the last value type declared for signal `name` of message `id`
/// makes it a float.
fn float_type(types: &Vec<(u32, String, bool)>, id: u32, name: &String) -> (float: bool)
    ensures
        float == is_float_signal(type_views(types@), id, name@),
{
    let ghost views = type_views(types@);
    let mut k = types.len();
    assert(views.subrange(0, k as int) =~= views);
    while k > 0
        invariant
            k <= types@.len(),
            views == type_views(types@),
            is_float_signal(views, id, name@) == is_float_signal(views.subrange(0, k as int), id, name@),
        decreases k,
    {
        assert(views.subrange(0, k as int).last() == (types@[k - 1].0, types@[k - 1].1@, types@[k - 1].2));
        if types[k - 1].0 == id && crate::text::same_text(types[k - 1].1.as_str(), name.as_str()) {
            return types[k - 1].2;
        }
        assert(views.subrange(0, k as int).drop_last() =~= views.subrange(0, k - 1));
        k = k - 1;
    }
    false
}

/// Marks the float signals of the messages.
fn apply_types(messages: Vec<MessageText>, types: &Vec<(u32, String, bool)>) -> (marked: Vec<MessageText>)
    ensures
        message_views(marked@) == marked_messages(type_views(types@), message_views(messages@)),
{
    let ghost tv = type_views(types@);
    let ghost input = message_views(messages@);
    let mut out: Vec<MessageText> = Vec::new();
    let mut i: usize = 0;
    while i < messages.len()
        invariant
            i <= messages@.len(),
            tv == type_views(types@),
            input == message_views(messages@),
            message_views(out@) == marked_messages(tv, input.subrange(0, i as int)),
        decreases messages.len() - i,
    {
        let message = &messages[i];
        let mut signals: Vec<SignalText> = Vec::new();
        let mut k: usize = 0;
        while k < message.signals.len()
            invariant
                k <= message.signals@.len(),
                tv == type_views(types@),
                signal_views(signals@) == marked_signals(tv, message.id, signal_views(message.signals@).subrange(0, k as int)),
            decreases message.signals.len() - k,
        {
            let s = &message.signals[k];
            let float = float_type(types, message.id, &s.name);
            let marked = SignalText {
                name: s.name.clone(),
                multiplexor: s.multiplexor,
                switch_value: s.switch_value,
                start_bit: s.start_bit,
                bit_length: s.bit_length,
                signed: s.signed,
                floating: float,
                factor: s.factor.clone(),
                offset: s.offset.clone(),
                unit: s.unit.clone(),
            };
            let ghost before = signals@;
            signals.push(marked);
            proof {
                let lhs = signal_views(signals@);
                let all = signal_views(message.signals@);
                let rhs = marked_signals(tv, message.id, all.subrange(0, k + 1));
                assert(signal_views(before).len() == before.len());
                assert(marked_signals(tv, message.id, all.subrange(0, k as int)).len() == k);
                assert(before.len() == k);
                assert forall|j: int| 0 <= j < lhs.len() implies lhs[j] == rhs[j] by {
                    assert(lhs[j] == signal_view(signals@[j]));
                    if j < k {
                        assert(signals@[j] == before[j]);
                        assert(lhs[j] == signal_views(before)[j]);
                        assert(signal_views(before)[j] == marked_signals(tv, message.id, all.subrange(0, k as int))[j]);
                    } else {
                        assert(signals@[j] == marked);
                        assert(lhs[j] == signal_view(marked));
                        assert(all[k as int] == signal_view(*s));
                    }
                }
                assert(lhs =~= rhs);
            }
            k = k + 1;
        }
        assert(signal_views(message.signals@).subrange(0, message.signals@.len() as int) =~= signal_views(
            message.signals@,
        ));
        let ghost before = out@;
        let made = MessageText { id: message.id, name: message.name.clone(), signals };
        out.push(made);
        proof {
            let lhs = message_views(out@);
            let rhs = marked_messages(tv, input.subrange(0, i + 1));
            assert(message_views(before).len() == before.len());
            assert(marked_messages(tv, input.subrange(0, i as int)).len() == i);
            assert(before.len() == i);
            assert forall|j: int| 0 <= j < lhs.len() implies lhs[j] == rhs[j] by {
                assert(lhs[j] == message_view(out@[j]));
                if j < i {
                    assert(out@[j] == before[j]);
                    assert(lhs[j] == message_views(before)[j]);
                    assert(message_views(before)[j] == marked_messages(tv, input.subrange(0, i as int))[j]);
                } else {
                    assert(out@[j] == made);
                    assert(lhs[j] == message_view(made));
                    assert(input[i as int] == message_view(*message));
                }
            }
            assert(lhs =~= rhs);
        }
        i = i + 1;
    }
    assert(input.subrange(0, input.len() as int) =~= input);
    out
}

/// The message table of a DBC text: each `BO_ <id> <name>:` line starts a
/// message, each `SG_` line after it adds a signal, and `SIG_VALTYPE_ <id>
/// <signal> : 1` or `: 2` marks a signal as a float. A message id that is
/// not a `u32`, a `BO_` line without name or an `SG_` line that does not
/// read as a signal of a message is an error.
pub fn parse_message_table(raw: &str) -> (result: Result<Vec<MessageText>, DbcError>)
    ensures
        match spec_message_table(raw@) {
            Ok(ms) => result matches Ok(x) && message_views(x@) == ms,
            Err(e) => result matches Err(x) && x == e,
        },
{
    let chars = chars_of(raw);
    let ghost s = chars@;
    let mut reading = TableReading { messages: Vec::new(), value_types: Vec::new() };
    assert(reading_view(reading) =~= TableView { messages: Seq::empty(), value_types: Seq::empty() }) by {
        assert(message_views(reading.messages@) =~= Seq::<MessageView>::empty());
        assert(type_views(reading.value_types@) =~= Seq::<(u32, Seq<char>, bool)>::empty());
    }
    let mut pos: usize = 0;
    while pos < chars.len()
        invariant
            s == chars@,
            s == raw@,
            pos <= s.len(),
            table_from(TableView { messages: Seq::empty(), value_types: Seq::empty() }, s, 0) == table_from(
                reading_view(reading),
                s,
                pos as int,
            ),
        decreases s.len() - pos,
    {
        let end = find_char_at(&chars, pos, '\n');
        let (a, b) = trim_bounds(&chars, pos, end);
        let line = sub_chars(&chars, a, b);
        let ghost view_before = reading_view(reading);
        assert(line@ == trim(s.subrange(pos as int, end as int)));
        match table_line_into(&mut reading, &line) {
            Ok(()) => {},
            Err(e) => {
                assert(table_from(view_before, s, pos as int) == Err::<TableView, DbcError>(e));
                return Err(e);
            },
        }
        if end >= chars.len() {
            let TableReading { messages, value_types } = reading;
            return Ok(apply_types(messages, &value_types));
        }
        pos = end + 1;
    }
    let TableReading { messages, value_types } = reading;
    Ok(apply_types(messages, &value_types))
}

} // verus!
