//! SDO requests and responses for the boards of a database.
use vstd::prelude::*;

use crate::bits::{extract_bits, field_value, low_bits};
use crate::codec::le_bytes;
use crate::can;
use crate::codec::{CanFrame, SdoOpcode, is_sdo_payload, sdo_frame, spec_opcode_code, spec_opcode_of};
use crate::dbc::{
    Database, EncodeError, SdoBoardDef, SdoVariableDef, Value, float_width_fits, law_decode_after_encode,
    lemma_encoded_fits, spec_decode_raw, spec_encode_raw, spec_max_unsigned,
};
use crate::exports::{spec_export_entry, spec_storage_tag, storage_tag, texts};
use crate::text::{decimal, push_decimal, push_str, same_text};

verus! {

/// Why a board or variable was not found.
#[derive(Clone, Copy, Debug, PartialEq, Eq, Structural)]
pub enum LookupError {
    BoardNotFound,
    VariableNotFound,
}

/// A board and one of its variables.
#[derive(Clone, Copy, Debug)]
pub struct VariableRef<'a> {
    pub board: &'a SdoBoardDef,
    pub variable: &'a SdoVariableDef,
}

/// `i` is the first position of `boards` whose board is called `name`.
pub open spec fn first_board_named(boards: Seq<SdoBoardDef>, name: Seq<char>, i: int) -> bool {
    &&& 0 <= i < boards.len()
    &&& boards[i].name@ == name
    &&& forall|j: int| 0 <= j < i ==> boards[j].name@ != name
}

/// `i` is the first position of `variables` whose variable is called `name`.
pub open spec fn first_variable_named(variables: Seq<SdoVariableDef>, name: Seq<char>, i: int) -> bool {
    &&& 0 <= i < variables.len()
    &&& variables[i].name@ == name
    &&& forall|j: int| 0 <= j < i ==> variables[j].name@ != name
}

/// The first board of the database called `board_name`.
pub fn board_by_name<'a>(database: &'a Database, board_name: &str) -> (result: Result<&'a SdoBoardDef, LookupError>)
    ensures
        match result {
            Ok(board) => exists|i: int|
                first_board_named(database.sdo_boards@, board_name@, i) && *board
                    == database.sdo_boards@[i],
            Err(e) => e == LookupError::BoardNotFound && forall|j: int|
                0 <= j < database.sdo_boards@.len() ==> #[trigger] database.sdo_boards@[j].name@
                    != board_name@,
        },
{
    let boards = &database.sdo_boards;
    let mut i: usize = 0;
    while i < boards.len()
        invariant
            boards@ == database.sdo_boards@,
            i <= boards@.len(),
            forall|j: int| 0 <= j < i ==> #[trigger] boards@[j].name@ != board_name@,
        decreases boards.len() - i,
    {
        if same_text(boards[i].name.as_str(), board_name) {
            assert(first_board_named(database.sdo_boards@, board_name@, i as int));
            return Ok(&boards[i]);
        }
        i = i + 1;
    }
    Err(LookupError::BoardNotFound)
}

/// The first variable called `variable_name` of the first board called
/// `board_name`.
pub fn variable_by_name<'a>(database: &'a Database, board_name: &str, variable_name: &str) -> (result: Result<VariableRef<'a>, LookupError>)
    ensures
        match result {
            Ok(found) => exists|i: int, k: int|
                first_board_named(database.sdo_boards@, board_name@, i) && *found.board
                    == database.sdo_boards@[i] && first_variable_named(
                    database.sdo_boards@[i].variables@,
                    variable_name@,
                    k,
                ) && *found.variable == database.sdo_boards@[i].variables@[k],
            Err(LookupError::BoardNotFound) => forall|j: int|
                0 <= j < database.sdo_boards@.len() ==> #[trigger] database.sdo_boards@[j].name@
                    != board_name@,
            Err(LookupError::VariableNotFound) => exists|i: int|
                first_board_named(database.sdo_boards@, board_name@, i) && forall|k: int|
                    0 <= k < database.sdo_boards@[i].variables@.len()
                        ==> #[trigger] database.sdo_boards@[i].variables@[k].name@
                        != variable_name@,
        },
{
    let board = match board_by_name(database, board_name) {
        Ok(board) => board,
        Err(e) => return Err(e),
    };
    let ghost bi = choose|i: int|
        first_board_named(database.sdo_boards@, board_name@, i) && *board
            == database.sdo_boards@[i];
    let variables = &board.variables;
    let mut k: usize = 0;
    while k < variables.len()
        invariant
            first_board_named(database.sdo_boards@, board_name@, bi),
            *board == database.sdo_boards@[bi],
            variables@ == board.variables@,
            k <= variables@.len(),
            forall|j: int| 0 <= j < k ==> #[trigger] variables@[j].name@ != variable_name@,
        decreases variables.len() - k,
    {
        if same_text(variables[k].name.as_str(), variable_name) {
            assert(first_variable_named(board.variables@, variable_name@, k as int));
            return Ok(VariableRef { board, variable: &variables[k] });
        }
        k = k + 1;
    }
    Err(LookupError::VariableNotFound)
}

/// The GET request for variable `var_id` of `board`.
pub fn get_request(board: &SdoBoardDef, var_id: u16) -> (frame: CanFrame)
    ensures
        frame.id == board.message_id,
        frame.dlc == 7,
        is_sdo_payload(frame.payload, spec_opcode_code(SdoOpcode::GetReq), var_id, 0, 0),
{
    sdo_frame(board.message_id, SdoOpcode::GetReq, var_id, 0, 0)
}

/// The SET request that writes `wire_value` (the value in the variable's
/// wire representation) to `variable` of `board`; fails when the value does
/// not encode in that representation.
pub fn set_request(board: &SdoBoardDef, variable: &SdoVariableDef, wire_value: Value) -> (result: Result<CanFrame, EncodeError>)
    requires
        float_width_fits(wire_value, variable.wire_storage),
    ensures
        match spec_encode_raw(wire_value, variable.wire_storage) {
            Ok(raw) => result matches Ok(frame) && frame.id == board.message_id && frame.dlc == 7
                && is_sdo_payload(
                frame.payload,
                spec_opcode_code(SdoOpcode::SetReq),
                variable.id,
                raw,
                variable.wire_storage.bits as u32,
            ),
            Err(e) => result == Err::<CanFrame, EncodeError>(e),
        },
{
    let raw = match wire_value.encode_raw(variable.wire_storage) {
        Ok(raw) => raw,
        Err(e) => return Err(e),
    };
    Ok(sdo_frame(board.message_id, SdoOpcode::SetReq, variable.id, raw, variable.wire_storage.bits as u32))
}

/// Why a response reports a failure.
#[derive(Clone, Copy, Debug, PartialEq, Eq, Structural)]
pub enum ResponseError {
    /// The board refused the value as out of range.
    OutOfRange,
    /// The board refused to write a read-only variable.
    ReadOnly,
    /// The board reported an error.
    Generic,
    /// The opcode (given) is not one a response may carry.
    UnexpectedOpcode(u64),
}

/// What a received frame means for a pending request on `variable` of
/// `board`: nothing when it is for another message or variable, the value
/// in the variable's wire representation for a response, and the error the
/// board reported otherwise.
pub open spec fn spec_response(frame: can::CanFrame, board: SdoBoardDef, variable: SdoVariableDef) -> Result<Option<Value>, ResponseError> {
    let data = frame.data@;
    let code = field_value(data, 0, 8);
    if frame.id != board.message_id {
        Ok(None)
    } else if field_value(data, 8, 10) != variable.id {
        Ok(None)
    } else {
        match spec_opcode_of(code) {
            Some(SdoOpcode::Response) => Ok(
                Some(
                    spec_decode_raw(
                        variable.wire_storage,
                        field_value(data, 24, variable.wire_storage.bits as nat),
                    ),
                ),
            ),
            Some(SdoOpcode::ErrOutOfRange) => Err(ResponseError::OutOfRange),
            Some(SdoOpcode::ErrWriteReadOnly) => Err(ResponseError::ReadOnly),
            Some(SdoOpcode::Error) => Err(ResponseError::Generic),
            _ => Err(ResponseError::UnexpectedOpcode(code)),
        }
    }
}

/// Decides what `frame` means for a pending request on `variable` of `board`.
pub fn maybe_decode_response(frame: &can::CanFrame, board: &SdoBoardDef, variable: &SdoVariableDef) -> (result: Result<Option<Value>, ResponseError>)
    requires
        variable.wire_storage.bits <= 40,
    ensures
        result == spec_response(*frame, *board, *variable),
{
    if frame.id != board.message_id {
        return Ok(None);
    }
    let data = frame.data.as_slice();
    let opcode = extract_bits(data, 0, 8);
    let var_id = extract_bits(data, 8, 10);
    if var_id != variable.id as u64 {
        return Ok(None);
    }
    match SdoOpcode::from_code(opcode) {
        Some(SdoOpcode::Response) => {
            let raw = extract_bits(data, 24, variable.wire_storage.bits);
            Ok(Some(Value::decode_raw(variable.wire_storage, raw)))
        },
        Some(SdoOpcode::ErrOutOfRange) => Err(ResponseError::OutOfRange),
        Some(SdoOpcode::ErrWriteReadOnly) => Err(ResponseError::ReadOnly),
        Some(SdoOpcode::Error) => Err(ResponseError::Generic),
        _ => Err(ResponseError::UnexpectedOpcode(opcode)),
    }
}

/// A response laid out as the DBC says, for `variable` of `board`, is read as
/// the value its field holds.
pub proof fn law_response_layout(
    board: SdoBoardDef,
    variable: SdoVariableDef,
    payload: u64,
    raw: u64,
    received: can::CanFrame,
)
    requires
        variable.id < 1024,
        variable.wire_storage.bits <= 32,
        is_sdo_payload(
            payload,
            spec_opcode_code(SdoOpcode::Response),
            variable.id,
            raw,
            variable.wire_storage.bits as u32,
        ),
        received.id == board.message_id,
        received.data@ == le_bytes(payload),
    ensures
        spec_response(received, board, variable) == Ok::<Option<Value>, ResponseError>(
            Some(spec_decode_raw(variable.wire_storage, low_bits(raw, variable.wire_storage.bits as int))),
        ),
{
}

/// A board that answers a SET with the field the request carried gives back
/// the value that was set.
pub proof fn law_echoed_set_reads_back(
    board: SdoBoardDef,
    variable: SdoVariableDef,
    value: Value,
    payload: u64,
    received: can::CanFrame,
)
    requires
        variable.id < 1024,
        variable.wire_storage.bits <= 32,
        spec_encode_raw(value, variable.wire_storage) is Ok,
        is_sdo_payload(
            payload,
            spec_opcode_code(SdoOpcode::Response),
            variable.id,
            spec_encode_raw(value, variable.wire_storage)->Ok_0,
            variable.wire_storage.bits as u32,
        ),
        received.id == board.message_id,
        received.data@ == le_bytes(payload),
    ensures
        spec_response(received, board, variable) == Ok::<Option<Value>, ResponseError>(Some(value)),
{
    let raw = spec_encode_raw(value, variable.wire_storage)->Ok_0;
    let bits = variable.wire_storage.bits;
    lemma_encoded_fits(value, variable.wire_storage);
    law_decode_after_encode(value, variable.wire_storage);
    vstd::arithmetic::power2::lemma_pow2_pos(bits as nat);
    if bits > 0 {
        vstd::bits::lemma_u64_pow2_no_overflow(bits as nat);
        vstd::arithmetic::div_mod::lemma_small_mod(raw as nat, vstd::arithmetic::power2::pow2(bits as nat));
    } else {
        vstd::arithmetic::power2::lemma2_to64();
    }
    assert(low_bits(raw, bits as int) == raw);
    law_response_layout(board, variable, payload, raw, received);
}

/// The listing line of a board: its name and its number of variables,
/// separated by a tab.
pub open spec fn board_line(board: SdoBoardDef) -> Seq<char> {
    board.name@ + "\t"@ + decimal(board.variables@.len())
}

/// The listing line of a variable of a board: board, variable, type tag and
/// id, separated by tabs.
pub open spec fn variable_line(board: SdoBoardDef, variable: SdoVariableDef) -> Seq<char> {
    board.name@ + "\t"@ + variable.name@ + "\t"@ + spec_storage_tag(variable.storage) + "\t"@ + decimal(
        variable.id as nat,
    )
}

/// The listing lines of the boards.
pub open spec fn board_lines(boards: Seq<SdoBoardDef>) -> Seq<Seq<char>>
    decreases boards.len(),
{
    if boards.len() == 0 {
        Seq::empty()
    } else {
        board_lines(boards.drop_last()).push(board_line(boards.last()))
    }
}

/// The listing lines of the variables of `board`.
pub open spec fn variable_lines(board: SdoBoardDef, variables: Seq<SdoVariableDef>) -> Seq<Seq<char>>
    decreases variables.len(),
{
    if variables.len() == 0 {
        Seq::empty()
    } else {
        variable_lines(board, variables.drop_last()).push(variable_line(board, variables.last()))
    }
}

proof fn lemma_variable_lines(board: SdoBoardDef, variables: Seq<SdoVariableDef>)
    ensures
        variable_lines(board, variables).len() == variables.len(),
        forall|k: int|
            0 <= k < variables.len() ==> #[trigger] variable_lines(board, variables)[k] == variable_line(
                board,
                variables[k],
            ),
    decreases variables.len(),
{
    if variables.len() > 0 {
        lemma_variable_lines(board, variables.drop_last());
    }
}

/// A board listing has one line per variable of the board, in the board's
/// order: the board's name, the variable's name, the type tag of the
/// variable's own storage (the type the user reads, writes, exports and
/// restores it as, the tag of its export entry, not that of its wire
/// field) and its id, separated by tabs.
pub proof fn law_board_listing(board: SdoBoardDef)
    ensures
        variable_lines(board, board.variables@).len() == board.variables@.len(),
        forall|k: int|
            0 <= k < board.variables@.len() ==> #[trigger] variable_lines(board, board.variables@)[k]
                == board.name@ + "\t"@ + board.variables@[k].name@ + "\t"@ + spec_storage_tag(
                board.variables@[k].storage,
            ) + "\t"@ + decimal(board.variables@[k].id as nat),
        forall|k: int, value: Value|
            0 <= k < board.variables@.len() ==> #[trigger] spec_export_entry(board, board.variables@[k], value).type_tag
                == spec_storage_tag(board.variables@[k].storage),
{
    lemma_variable_lines(board, board.variables@);
}

/// The listing of the database: a line per board, or, for the first board
/// called `board_name`, a line per variable.
pub fn list_lines(database: &Database, board_name: Option<&str>) -> (result: Result<Vec<String>, LookupError>)
    ensures
        match board_name {
            None => result matches Ok(lines) && texts(lines@) == board_lines(database.sdo_boards@),
            Some(name) => match result {
                Ok(lines) => exists|i: int|
                    first_board_named(database.sdo_boards@, name@, i) && texts(lines@) == variable_lines(
                        database.sdo_boards@[i],
                        database.sdo_boards@[i].variables@,
                    ),
                Err(e) => e == LookupError::BoardNotFound && forall|j: int|
                    0 <= j < database.sdo_boards@.len() ==> #[trigger] database.sdo_boards@[j].name@
                        != name@,
            },
        },
{
    let mut lines: Vec<String> = Vec::new();
    match board_name {
        None => {
            let boards = &database.sdo_boards;
            let mut i: usize = 0;
            while i < boards.len()
                invariant
                    i <= boards@.len(),
                    boards@ == database.sdo_boards@,
                    texts(lines@) == board_lines(boards@.subrange(0, i as int)),
                decreases boards.len() - i,
            {
                let mut line = boards[i].name.clone();
                push_str(&mut line, "\t");
                push_decimal(&mut line, boards[i].variables.len() as u64);
                let ghost before = lines@;
                lines.push(line);
                proof {
                    assert(boards@.subrange(0, i + 1).drop_last() =~= boards@.subrange(0, i as int));
                    assert(texts(lines@) =~= texts(before).push(line@));
                }
                i = i + 1;
            }
            assert(boards@.subrange(0, boards@.len() as int) =~= boards@);
            Ok(lines)
        },
        Some(name) => {
            let board = match board_by_name(database, name) {
                Ok(board) => board,
                Err(e) => return Err(e),
            };
            let variables = &board.variables;
            let mut k: usize = 0;
            while k < variables.len()
                invariant
                    k <= variables@.len(),
                    variables@ == board.variables@,
                    texts(lines@) == variable_lines(*board, variables@.subrange(0, k as int)),
                decreases variables.len() - k,
            {
                let variable = &variables[k];
                let mut line = board.name.clone();
                push_str(&mut line, "\t");
                push_str(&mut line, variable.name.as_str());
                push_str(&mut line, "\t");
                let tag = storage_tag(variable.storage);
                push_str(&mut line, tag.as_str());
                push_str(&mut line, "\t");
                push_decimal(&mut line, variable.id as u64);
                let ghost before = lines@;
                lines.push(line);
                proof {
                    assert(variables@.subrange(0, k + 1).drop_last() =~= variables@.subrange(0, k as int));
                    assert(texts(lines@) =~= texts(before).push(line@));
                }
                k = k + 1;
            }
            assert(variables@.subrange(0, variables@.len() as int) =~= variables@);
            Ok(lines)
        },
    }
}

} // verus!
