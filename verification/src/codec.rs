//! The SDO message layout that the DBC defines, and the metadata of the DBC's
//! messages and signals.
//!
//! An SDO payload is 7 bytes long: the opcode in bits 0..8, the variable id
//! in bits 8..18 and, from bit 24, the value in the variable's wire encoding.
use vstd::prelude::*;

use crate::bits::{
    buffer_bit, extracts, field_value, lemma_extracts_unique, lemma_field_value_bits,
    lemma_low_bits_bit, lemma_mask_is_mod, lemma_shl_one, lemma_word_from_bits, low_bits,
    word_bit,
};

verus! {

/// Opcodes of the SDO protocol.
#[derive(Clone, Copy, Debug, PartialEq, Eq, Structural)]
pub enum SdoOpcode {
    GetReq,
    SetReq,
    Response,
    ErrOutOfRange,
    ErrWriteReadOnly,
    Error,
}

/// The number that stands for each opcode on the bus.
pub open spec fn spec_opcode_code(opcode: SdoOpcode) -> u64 {
    match opcode {
        SdoOpcode::GetReq => 1,
        SdoOpcode::SetReq => 2,
        SdoOpcode::Response => 128,
        SdoOpcode::ErrOutOfRange => 253,
        SdoOpcode::ErrWriteReadOnly => 254,
        SdoOpcode::Error => 255,
    }
}

/// The opcode that `code` stands for, if any.
pub open spec fn spec_opcode_of(code: u64) -> Option<SdoOpcode> {
    if code == 1 {
        Some(SdoOpcode::GetReq)
    } else if code == 2 {
        Some(SdoOpcode::SetReq)
    } else if code == 128 {
        Some(SdoOpcode::Response)
    } else if code == 253 {
        Some(SdoOpcode::ErrOutOfRange)
    } else if code == 254 {
        Some(SdoOpcode::ErrWriteReadOnly)
    } else if code == 255 {
        Some(SdoOpcode::Error)
    } else {
        None
    }
}

impl SdoOpcode {
    /// The number that stands for this opcode on the bus.
    pub fn code(self) -> (code: u64)
        ensures
            code == spec_opcode_code(self),
    {
        match self {
            SdoOpcode::GetReq => 1,
            SdoOpcode::SetReq => 2,
            SdoOpcode::Response => 128,
            SdoOpcode::ErrOutOfRange => 253,
            SdoOpcode::ErrWriteReadOnly => 254,
            SdoOpcode::Error => 255,
        }
    }

    /// The opcode that `code` stands for, if any.
    pub fn from_code(code: u64) -> (opcode: Option<SdoOpcode>)
        ensures
            opcode == spec_opcode_of(code),
            opcode matches Some(op) ==> spec_opcode_code(op) == code,
    {
        if code == 1 {
            Some(SdoOpcode::GetReq)
        } else if code == 2 {
            Some(SdoOpcode::SetReq)
        } else if code == 128 {
            Some(SdoOpcode::Response)
        } else if code == 253 {
            Some(SdoOpcode::ErrOutOfRange)
        } else if code == 254 {
            Some(SdoOpcode::ErrWriteReadOnly)
        } else if code == 255 {
            Some(SdoOpcode::Error)
        } else {
            None
        }
    }
}

/// A frame to send: identifier, data length and the payload as a
/// little-endian 64-bit word.
#[derive(Clone, Copy, Debug, PartialEq, Eq, Structural)]
pub struct CanFrame {
    pub id: u32,
    pub dlc: u8,
    pub payload: u64,
}

/// The 8 little-endian bytes of `word`.
pub open spec fn le_bytes(word: u64) -> Seq<u8> {
    Seq::new(8, |i: int| ((word >> ((8 * i) as u64)) & 0xff) as u8)
}

/// Length of the value field of an SDO payload for a variable of `bits` bits.
pub open spec fn value_field_len(bits: u32) -> nat {
    if bits > 32 {
        32
    } else {
        bits as nat
    }
}

/// The payload of an SDO frame: `opcode` in bits 0..8, the low 10 bits of
/// `var_id` in bits 8..18, the low `value_field_len(value_bits)` bits of
/// `value` from bit 24 on, and no other bit set.
pub open spec fn is_sdo_payload(payload: u64, opcode: u64, var_id: u16, value: u64, value_bits: u32) -> bool {
    let bytes = le_bytes(payload);
    let w = value_field_len(value_bits);
    &&& field_value(bytes, 0, 8) == opcode
    &&& field_value(bytes, 8, 10) == (var_id % 1024) as u64
    &&& field_value(bytes, 18, 6) == 0
    &&& field_value(bytes, 24, w) == low_bits(value, w as int)
    &&& field_value(bytes, 24 + w as int, (40 - w) as nat) == 0
}

proof fn lemma_le_byte_bit(p: u64, j: u64, q: u64)
    requires
        j < 8,
        q < 8,
    ensures
        (((((p >> (8 * j)) & 0xff) as u8) >> (q as u8)) & 1u8) as u64 == (p >> (8 * j + q)) & 1,
{
    assert((((((p >> (8 * j)) & 0xff) as u8) >> (q as u8)) & 1u8) as u64 == (p >> (8 * j + q)) & 1)
        by (bit_vector)
        requires
            j < 8,
            q < 8,
    ;
}

/// Bit `i` of the little-endian bytes of a word is bit `i` of the word.
pub proof fn lemma_le_bytes_bit(p: u64, i: int)
    requires
        0 <= i < 64,
    ensures
        buffer_bit(le_bytes(p), i) == word_bit(p, i),
{
    lemma_le_byte_bit(p, (i / 8) as u64, (i % 8) as u64);
}

proof fn lemma_word_field(p: u64, s: int, n: nat)
    requires
        0 <= s,
        s + n <= 64,
    ensures
        field_value(le_bytes(p), s, n) == low_bits(p >> (s as u64), n as int),
{
    let bytes = le_bytes(p);
    lemma_field_value_bits(bytes, s, n);
    assert forall|k: int| 0 <= k < 64 implies #[trigger] word_bit(
        low_bits(p >> (s as u64), n as int),
        k,
    ) == if k < n {
        buffer_bit(bytes, s + k)
    } else {
        0
    } by {
        lemma_low_bits_bit(p >> (s as u64), n as int, k);
        if k < n {
            lemma_le_bytes_bit(p, s + k);
            let ss = s as u64;
            let kk = k as u64;
            assert(((p >> ss) >> kk) & 1 == (p >> (ss + kk)) & 1) by (bit_vector)
                requires
                    ss + kk < 64,
            ;
        }
    }
    lemma_extracts_unique(bytes, s, n as int, field_value(bytes, s, n), low_bits(p >> (s as u64), n as int));
}

proof fn lemma_payload_fields(code: u64, var_id: u64, value: u64, w: u64)
    requires
        code < 256,
        var_id < 1024,
        w <= 32,
    ensures
        ({
            let v = value & (((1u64 << w) - 1) as u64);
            let p = code | (var_id << 8u64) | (v << 24u64);
            &&& p & 0xff == code
            &&& (p >> 8u64) & 0x3ff == var_id
            &&& (p >> 18u64) & 0x3f == 0
            &&& (p >> 24u64) & (((1u64 << w) - 1) as u64) == v
            &&& (p >> (24 + w)) & (((1u64 << ((40 - w) as u64)) - 1) as u64) == 0
        }),
{
    assert({
        let v = value & (((1u64 << w) - 1) as u64);
        let p = code | (var_id << 8u64) | (v << 24u64);
        &&& p & 0xff == code
        &&& (p >> 8u64) & 0x3ff == var_id
        &&& (p >> 18u64) & 0x3f == 0
        &&& (p >> 24u64) & (((1u64 << w) - 1) as u64) == v
        &&& (p >> (24 + w)) & (((1u64 << ((40 - w) as u64)) - 1) as u64) == 0
    }) by (bit_vector)
        requires
            code < 256,
            var_id < 1024,
            w <= 32,
    ;
}

/// The SDO frame for `message_id` carrying `opcode`, `var_id` and `value`,
/// whose wire encoding has `value_bits` bits (at most 32 of them fit).
pub fn sdo_frame(message_id: u32, opcode: SdoOpcode, var_id: u16, value: u64, value_bits: u32) -> (frame: CanFrame)
    ensures
        frame.id == message_id,
        frame.dlc == 7,
        is_sdo_payload(frame.payload, spec_opcode_code(opcode), var_id, value, value_bits),
{
    let w: u32 = if value_bits > 32 {
        32
    } else {
        value_bits
    };
    let code = opcode.code();
    let id_field = (var_id & 0x3ff) as u64;
    proof {
        lemma_shl_one(w as u64);
        vstd::arithmetic::power2::lemma_pow2_pos(w as nat);
    }
    let mask = ((1u64 << (w as u64)) - 1) as u64;
    let value_field = value & mask;
    let payload = code | (id_field << 8u64) | (value_field << 24u64);
    proof {
        let ww = w as u64;
        assert((var_id & 0x3ff) as u64 == (var_id as u64) % 1024) by (bit_vector);
        assert(var_id & 0x3ff < 1024) by (bit_vector);
        lemma_payload_fields(code, id_field, value, ww);
        lemma_word_field(payload, 0, 8);
        lemma_word_field(payload, 8, 10);
        lemma_word_field(payload, 18, 6);
        lemma_word_field(payload, 24, w as nat);
        lemma_word_field(payload, 24 + w as int, (40 - w) as nat);
        assert(payload >> 0u64 == payload) by (bit_vector);
        lemma_mask_is_mod(payload, 8);
        lemma_mask_is_mod(payload >> 8u64, 10);
        lemma_mask_is_mod(payload >> 18u64, 6);
        lemma_mask_is_mod(payload >> 24u64, ww);
        lemma_mask_is_mod(value, ww);
        lemma_mask_is_mod(payload >> (24 + ww), (40 - ww) as u64);
        assert(1u64 << 8u64 == 256) by (bit_vector);
        assert(1u64 << 10u64 == 1024) by (bit_vector);
        assert(1u64 << 6u64 == 64) by (bit_vector);
        lemma_shl_one(8);
        lemma_shl_one(10);
        lemma_shl_one(6);
        lemma_shl_one((40 - ww) as u64);
        assert((value & mask) & mask == value & mask) by (bit_vector);
        if w == 0 {
            assert(1u64 << 0u64 == 1) by (bit_vector);
            assert(value & 0 == 0) by (bit_vector);
        }
    }
    CanFrame { id: message_id, dlc: 7, payload }
}

/// The first `frame.dlc` bytes of the payload, in bus order.
pub fn frame_data(frame: &CanFrame) -> (data: Vec<u8>)
    requires
        frame.dlc <= 8,
    ensures
        data@ == le_bytes(frame.payload).subrange(0, frame.dlc as int),
{
    let mut data: Vec<u8> = Vec::new();
    let mut i: u8 = 0;
    while i < frame.dlc
        invariant
            i <= frame.dlc <= 8,
            data@ == le_bytes(frame.payload).subrange(0, i as int),
        decreases frame.dlc - i,
    {
        let byte = ((frame.payload >> (8 * i as u64)) & 0xff) as u8;
        data.push(byte);
        assert(le_bytes(frame.payload).subrange(0, i + 1) == le_bytes(frame.payload).subrange(
            0,
            i as int,
        ).push(byte));
        i = i + 1;
    }
    data
}

/// What the DBC says of one signal of a message. The scaling factor and
/// offset are kept as the bit patterns of IEEE-754 doubles.
#[derive(Clone, Debug)]
pub struct SignalInfo {
    pub name: String,
    pub start_bit: u16,
    pub bit_length: u16,
    pub signed: bool,
    pub floating: bool,
    pub scaling_bits: u64,
    pub offset_bits: u64,
    pub units: String,
    pub multiplexor: bool,
    pub multiplexed: bool,
    pub switch_value: Option<u64>,
}

/// What the DBC says of one message.
#[derive(Clone, Debug)]
pub struct MessageInfo {
    pub id: u32,
    pub name: String,
    pub signals: Vec<SignalInfo>,
}

} // verus!
