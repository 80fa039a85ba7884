//! Values of SDO variables and their encoding in CAN payloads, as the DBC
//! describes them.
use vstd::arithmetic::power2::{pow2, lemma_pow2_pos, lemma_pow2_unfold, lemma2_to64, lemma2_to64_rest};
use vstd::prelude::*;

use std::collections::BTreeMap;

use crate::bits::{lemma_mask_is_mod, lemma_shl_one, word_bit};
use crate::codec::SignalInfo;
use crate::text::{chars_of, has_prefix, parse_signed, parse_unsigned, spec_parse_i64, spec_parse_u64, starts_with_at, string_of, trim};

verus! {

/// How a value is represented: unsigned or signed integer, or IEEE-754 float.
#[derive(Clone, Copy, Debug, PartialEq, Eq, Structural)]
pub enum ValueKind {
    Unsigned,
    Signed,
    Float,
}

/// A representation and its width in bits.
#[derive(Clone, Copy, Debug, PartialEq, Eq, Structural)]
pub struct ValueStorage {
    pub kind: ValueKind,
    pub bits: u16,
}

/// The IEEE-754 encoding of a floating-point value, in single or double
/// precision. Arithmetic on such values is left to the caller.
#[derive(Clone, Copy, Debug, PartialEq, Eq, Structural)]
pub enum FloatBits {
    Single(u32),
    Double(u64),
}

/// The value of an SDO variable.
#[derive(Clone, Copy, Debug, PartialEq, Eq, Structural)]
pub enum Value {
    Unsigned(u64),
    Signed(i64),
    Float(FloatBits),
}

/// Why a value could not be encoded.
#[derive(Clone, Copy, Debug, PartialEq, Eq, Structural)]
pub enum EncodeError {
    /// The value lies outside the range of the storage.
    OutOfRange,
    /// The value is not of the storage's kind (floats: not of its width).
    TypeMismatch,
}

/// A message of the DBC.
#[derive(Clone, Debug)]
pub struct MessageDef {
    pub name: String,
}

/// An SDO variable of a board.
#[derive(Clone, Debug)]
pub struct SdoVariableDef {
    pub id: u16,
    pub name: String,
    /// Type the variable has for the user, after DBC scaling.
    pub storage: ValueStorage,
    /// Representation carried in the SDO payload, before DBC scaling.
    pub wire_storage: ValueStorage,
    /// DBC scaling factor, as the bit pattern of an IEEE-754 double.
    pub factor_bits: u64,
    /// DBC scaling offset, as the bit pattern of an IEEE-754 double.
    pub offset_bits: u64,
    pub unit: Option<String>,
    pub enum_values: BTreeMap<i64, String>,
}

/// A board that answers SDO requests on one message.
#[derive(Clone, Debug)]
pub struct SdoBoardDef {
    pub name: String,
    pub message_id: u32,
    pub variables: Vec<SdoVariableDef>,
}

/// What the DBC describes: its nodes, its messages and its SDO boards.
#[derive(Clone, Debug)]
pub struct Database {
    pub path: String,
    pub nodes: Vec<String>,
    pub messages: BTreeMap<u32, MessageDef>,
    pub sdo_boards: Vec<SdoBoardDef>,
}

/// The double `1.0` has one encoding.
pub open spec fn is_unit_factor(bits: u64) -> bool {
    bits == 0x3ff0_0000_0000_0000
}

/// The doubles equal to `0.0` are `+0.0` and `-0.0`.
pub open spec fn is_zero_offset(bits: u64) -> bool {
    bits == 0 || bits == 0x8000_0000_0000_0000
}

/// A scaling changes values unless its factor is `1.0` and its offset `0.0`
/// (as doubles compare: a NaN factor or offset counts as scaling).
pub open spec fn spec_is_scaled(factor_bits: u64, offset_bits: u64) -> bool {
    !is_unit_factor(factor_bits) || !is_zero_offset(offset_bits)
}

/// Whether the doubles with these encodings differ from factor `1.0` or
/// offset `0.0`.
pub fn is_scaling(factor_bits: u64, offset_bits: u64) -> (scaled: bool)
    ensures
        scaled == spec_is_scaled(factor_bits, offset_bits),
{
    factor_bits != 0x3ff0_0000_0000_0000 || (offset_bits != 0 && offset_bits
        != 0x8000_0000_0000_0000)
}

impl SdoVariableDef {
    /// Whether DBC scaling changes the value of this variable.
    pub fn is_scaled(&self) -> (scaled: bool)
        ensures
            scaled == spec_is_scaled(self.factor_bits, self.offset_bits),
    {
        is_scaling(self.factor_bits, self.offset_bits)
    }
}

/// The integer width that holds a field of `bits` bits: 8, 16, 32 or 64.
pub open spec fn spec_normalize_storage_bits(bits: u16) -> u16 {
    if bits <= 8 {
        8
    } else if bits <= 16 {
        16
    } else if bits <= 32 {
        32
    } else {
        64
    }
}

/// The integer width that holds a field of `bits` bits.
pub fn normalize_storage_bits(bits: u16) -> (width: u16)
    ensures
        width == spec_normalize_storage_bits(bits),
{
    if bits <= 8 {
        8
    } else if bits <= 16 {
        16
    } else if bits <= 32 {
        32
    } else {
        64
    }
}

/// How a signal is carried on the wire: its kind, and its length in bits.
pub open spec fn spec_wire_storage(signal: SignalInfo) -> ValueStorage {
    ValueStorage {
        kind: if signal.floating {
            ValueKind::Float
        } else if signal.signed {
            ValueKind::Signed
        } else {
            ValueKind::Unsigned
        },
        bits: signal.bit_length,
    }
}

/// The type a signal has for the user: a float (32 bits for fields of up to
/// 32 bits, else 64) when it is a float or scaled, else an integer of its
/// signedness in the width that holds it.
pub open spec fn spec_physical_storage(signal: SignalInfo) -> ValueStorage {
    if signal.floating || spec_is_scaled(signal.scaling_bits, signal.offset_bits) {
        ValueStorage {
            kind: ValueKind::Float,
            bits: if signal.bit_length <= 32 {
                32
            } else {
                64
            },
        }
    } else {
        ValueStorage {
            kind: if signal.signed {
                ValueKind::Signed
            } else {
                ValueKind::Unsigned
            },
            bits: spec_normalize_storage_bits(signal.bit_length),
        }
    }
}

/// How a signal is carried on the wire.
pub fn wire_storage(signal: &SignalInfo) -> (storage: ValueStorage)
    ensures
        storage == spec_wire_storage(*signal),
{
    ValueStorage {
        kind: if signal.floating {
            ValueKind::Float
        } else if signal.signed {
            ValueKind::Signed
        } else {
            ValueKind::Unsigned
        },
        bits: signal.bit_length,
    }
}

/// The type a signal has for the user.
pub fn physical_storage(signal: &SignalInfo) -> (storage: ValueStorage)
    ensures
        storage == spec_physical_storage(*signal),
{
    if signal.floating || is_scaling(signal.scaling_bits, signal.offset_bits) {
        ValueStorage {
            kind: ValueKind::Float,
            bits: if signal.bit_length <= 32 {
                32
            } else {
                64
            },
        }
    } else {
        ValueStorage {
            kind: if signal.signed {
                ValueKind::Signed
            } else {
                ValueKind::Unsigned
            },
            bits: normalize_storage_bits(signal.bit_length),
        }
    }
}

/// The sender named by an SDO message: its name without the `SDO` prefix,
/// or the whole name when nothing follows the prefix or there is none.
pub open spec fn spec_inferred_sender(message_name: Seq<char>) -> Seq<char> {
    if has_prefix(message_name, seq!['S', 'D', 'O']) && message_name.len() > 3 {
        message_name.skip(3)
    } else {
        message_name
    }
}

/// The sender named by an SDO message.
pub fn inferred_sender(message_name: &str) -> (sender: String)
    ensures
        sender@ == spec_inferred_sender(message_name@),
{
    let chars = chars_of(message_name);
    proof {
        reveal_strlit("SDO");
        assert("SDO"@ == seq!['S', 'D', 'O']);
    }
    if starts_with_at(&chars, 0, chars.len(), "SDO") && chars.len() > 3 {
        assert(chars@.subrange(0, chars@.len() as int) == chars@);
        assert(chars@.subrange(3, chars@.len() as int) == chars@.skip(3));
        string_of(&chars, 3, chars.len())
    } else {
        assert(chars@.subrange(0, chars@.len() as int) == chars@);
        string_of(&chars, 0, chars.len())
    }
}

/// `2^bits - 1`, saturated at `u64::MAX`.
pub open spec fn spec_max_unsigned(bits: u16) -> int {
    if bits >= 64 {
        u64::MAX as int
    } else {
        pow2(bits as nat) - 1
    }
}

/// The range of a two's complement integer of `bits` bits (64 and more: the
/// range of `i64`; 0 bits: only zero).
pub open spec fn spec_signed_range(bits: u16) -> (int, int) {
    if bits == 0 {
        (0, 0)
    } else if bits >= 64 {
        (i64::MIN as int, i64::MAX as int)
    } else {
        (-pow2((bits - 1) as nat), pow2((bits - 1) as nat) - 1)
    }
}

/// `raw` read as a 64-bit two's complement integer.
pub open spec fn as_signed64(raw: u64) -> int {
    if raw <= i64::MAX {
        raw as int
    } else {
        raw - 0x1_0000_0000_0000_0000int
    }
}

/// Sign extension of the low `bits` bits of `raw`: when bit `bits - 1` is set
/// the low bits are read as a negative two's complement number, otherwise
/// `raw` is kept as it is (widths of 0 and of 64 or more keep `raw` too).
pub open spec fn spec_sign_extend(raw: u64, bits: u16) -> int {
    if bits == 0 || bits >= 64 || word_bit(raw, bits - 1) == 0 {
        as_signed64(raw)
    } else {
        (raw as int) % (pow2(bits as nat) as int) - pow2(bits as nat)
    }
}

/// Largest unsigned value of `bits` bits.
pub fn max_unsigned(bits: u16) -> (max: u64)
    ensures
        max == spec_max_unsigned(bits),
{
    if bits == 0 {
        proof {
            vstd::arithmetic::power2::lemma2_to64();
        }
        0
    } else if bits >= 64 {
        u64::MAX
    } else {
        proof {
            lemma_shl_one(bits as u64);
            lemma_pow2_pos(bits as nat);
        }
        (1u64 << bits) - 1
    }
}

/// Smallest and largest signed value of `bits` bits.
pub fn signed_range(bits: u16) -> (range: (i64, i64))
    ensures
        range.0 == spec_signed_range(bits).0,
        range.1 == spec_signed_range(bits).1,
{
    if bits == 0 {
        (0, 0)
    } else if bits >= 64 {
        (i64::MIN, i64::MAX)
    } else {
        proof {
            lemma_shl_one((bits - 1) as u64);
            lemma_pow2_pos((bits - 1) as nat);
            if bits < 64 {
                vstd::arithmetic::power2::lemma_pow2_strictly_increases((bits - 1) as nat, 63);
                lemma2_to64_rest();
            }
        }
        let max = ((1u64 << (bits - 1)) - 1) as i64;
        (-max - 1, max)
    }
}

proof fn lemma_u64_as_i64(x: u64)
    ensures
        x as i64 == as_signed64(x),
{
    assert(x >= 0x8000_0000_0000_0000u64 ==> (x as i64) as int == x as int
        - 0x1_0000_0000_0000_0000int) by (bit_vector);
}

proof fn lemma_extend_high(raw: u64, b: u64)
    requires
        1 <= b < 64,
    ensures
        (raw | (!0u64 << b)) as int == (raw & (((1u64 << b) - 1) as u64)) as int + 0x1_0000_0000_0000_0000int
            - (1u64 << b) as int,
        (raw | (!0u64 << b)) >= 0x8000_0000_0000_0000u64,
{
    assert((raw | (!0u64 << b)) as int == (raw & (((1u64 << b) - 1) as u64)) as int
        + 0x1_0000_0000_0000_0000int - (1u64 << b) as int) by (bit_vector)
        requires
            1 <= b < 64,
    ;
    assert((raw | (!0u64 << b)) >= 0x8000_0000_0000_0000u64) by (bit_vector)
        requires
            1 <= b < 64,
    ;
}

proof fn lemma_sign_bit_test(raw: u64, b: u64)
    requires
        1 <= b < 64,
    ensures
        (raw & (1u64 << ((b - 1) as u64)) == 0) == (word_bit(raw, b - 1) == 0),
{
    assert((raw & (1u64 << ((b - 1) as u64)) == 0) == (((raw >> ((b - 1) as u64)) & 1) == 0))
        by (bit_vector)
        requires
            1 <= b < 64,
    ;
}

/// Reads the low `bits` bits of `raw` as a two's complement number (see
/// `spec_sign_extend`).
pub fn sign_extend(raw: u64, bits: u16) -> (value: i64)
    ensures
        value == spec_sign_extend(raw, bits),
{
    proof {
        lemma_u64_as_i64(raw);
    }
    if bits == 0 || bits >= 64 {
        return raw as i64;
    }
    let sign_bit = 1u64 << (bits - 1);
    proof {
        lemma_sign_bit_test(raw, bits as u64);
    }
    if raw & sign_bit == 0 {
        raw as i64
    } else {
        let extended = raw | (!0u64 << bits);
        proof {
            lemma_extend_high(raw, bits as u64);
            lemma_u64_as_i64(extended);
            lemma_mask_is_mod(raw, bits as u64);
            lemma_shl_one(bits as u64);
        }
        extended as i64
    }
}

/// The number of bits that take part in an encoding of `bits` bits.
pub open spec fn encoded_width(bits: u16) -> nat {
    if bits >= 64 {
        64
    } else {
        bits as nat
    }
}

/// A float value already has the width of a float storage: a single is not
/// put in 64 bits nor a double in 32 (converting the width is float work,
/// done by the caller).
pub open spec fn float_width_fits(value: Value, storage: ValueStorage) -> bool {
    match value {
        Value::Float(FloatBits::Single(_)) => !(storage.kind == ValueKind::Float && storage.bits == 64),
        Value::Float(FloatBits::Double(_)) => !(storage.kind == ValueKind::Float && storage.bits == 32),
        _ => true,
    }
}

/// What `Value::encode_raw` returns: the raw field for `value` in `storage`.
/// Integers must be of the storage's kind and lie in its range (signed ones
/// are written in two's complement); floats must be of its kind, and it must
/// be 32 or 64 bits wide.
pub open spec fn spec_encode_raw(value: Value, storage: ValueStorage) -> Result<u64, EncodeError> {
    match (value, storage.kind) {
        (Value::Unsigned(v), ValueKind::Unsigned) => if v <= spec_max_unsigned(storage.bits) {
            Ok(v)
        } else {
            Err(EncodeError::OutOfRange)
        },
        (Value::Signed(v), ValueKind::Signed) => {
            let range = spec_signed_range(storage.bits);
            if range.0 <= v <= range.1 {
                Ok(((v as int) % (pow2(encoded_width(storage.bits)) as int)) as u64)
            } else {
                Err(EncodeError::OutOfRange)
            }
        },
        (Value::Float(FloatBits::Single(b)), ValueKind::Float) => if storage.bits == 32 {
            Ok(b as u64)
        } else {
            Err(EncodeError::TypeMismatch)
        },
        (Value::Float(FloatBits::Double(b)), ValueKind::Float) => if storage.bits == 64 {
            Ok(b)
        } else {
            Err(EncodeError::TypeMismatch)
        },
        _ => Err(EncodeError::TypeMismatch),
    }
}

/// What `Value::decode_raw` returns: the value a raw field holds in `storage`.
pub open spec fn spec_decode_raw(storage: ValueStorage, raw: u64) -> Value {
    match storage.kind {
        ValueKind::Unsigned => Value::Unsigned(raw),
        ValueKind::Signed => Value::Signed(spec_sign_extend(raw, storage.bits) as i64),
        ValueKind::Float => if storage.bits == 32 {
            Value::Float(FloatBits::Single((raw as int % 0x1_0000_0000int) as u32))
        } else {
            Value::Float(FloatBits::Double(raw))
        },
    }
}

proof fn lemma_pow2_64()
    ensures
        pow2(64) == 0x1_0000_0000_0000_0000int,
{
    lemma2_to64_rest();
}

/// Two's complement of `v` in `b < 64` bits, as the mask of its `u64` form.
proof fn lemma_twos_complement_mask(v: i64, b: u64)
    requires
        b < 64,
    ensures
        ((v as u64) & (((1u64 << b) - 1) as u64)) as int == (v as int) % (pow2(b as nat) as int),
{
    lemma_mask_is_mod(v as u64, b);
    lemma_shl_one(b);
    lemma_pow2_pos(b as nat);
    assert(v < 0 ==> (v as u64) as int == v as int + 0x1_0000_0000_0000_0000int) by (bit_vector);
    assert(v >= 0 ==> (v as u64) as int == v as int);
    vstd::arithmetic::power2::lemma_pow2_adds(b as nat, (64 - b) as nat);
    lemma_pow2_64();
    let p = pow2(b as nat) as int;
    let q = pow2((64 - b) as nat) as int;
    if v < 0 {
        vstd::arithmetic::div_mod::lemma_mod_multiples_vanish(q, v as int, p);
        assert(p * q == q * p) by (nonlinear_arith);
    }
}

proof fn lemma_twos_complement_64(v: i64)
    ensures
        (v as u64) as int == (v as int) % 0x1_0000_0000_0000_0000int,
{
    assert(v < 0 ==> (v as u64) as int == v as int + 0x1_0000_0000_0000_0000int) by (bit_vector);
}

proof fn lemma_u64_as_u32(x: u64)
    ensures
        (x as u32) as int == x as int % 0x1_0000_0000int,
{
    assert((x as u32) as int == x as int % 0x1_0000_0000int) by (bit_vector);
}

/// For `raw < 2^b` with `1 <= b < 64`, the top bit of the `b`-bit field is set
/// exactly when `raw >= 2^(b - 1)`.
proof fn lemma_top_field_bit(raw: u64, b: u64)
    requires
        1 <= b < 64,
        raw < pow2(b as nat),
    ensures
        (word_bit(raw, b - 1) == 1) == (raw >= pow2((b - 1) as nat)),
        word_bit(raw, b - 1) <= 1,
{
    let h = (b - 1) as u64;
    vstd::bits::lemma_u64_shr_is_div(raw, h);
    lemma_pow2_unfold(b as nat);
    lemma_pow2_pos(h as nat);
    let p = pow2(h as nat) as int;
    let q = raw as int / p;
    assert(0 <= q < 2 && (q >= 1) == (raw >= p)) by (nonlinear_arith)
        requires
            p > 0,
            0 <= raw < 2 * p,
            q == raw as int / p,
    ;
    let s = raw >> h;
    assert(s <= 1 ==> s & 1 == s) by (bit_vector);
}

/// A value that encodes in a storage decodes back to itself.
pub proof fn law_decode_after_encode(value: Value, storage: ValueStorage)
    requires
        spec_encode_raw(value, storage) is Ok,
    ensures
        spec_decode_raw(storage, spec_encode_raw(value, storage)->Ok_0) == value,
{
    let raw = spec_encode_raw(value, storage)->Ok_0;
    let bits = storage.bits;
    match value {
        Value::Signed(v) => {
            if bits == 0 {
                vstd::arithmetic::power2::lemma2_to64();
                assert(v == 0);
                assert(raw == 0);
                assert(spec_sign_extend(raw, bits) == 0);
            } else if bits >= 64 {
                lemma_pow2_64();
                let m = 0x1_0000_0000_0000_0000int;
                assert(raw as int == (v as int) % m);
                if v >= 0 {
                    vstd::arithmetic::div_mod::lemma_small_mod(v as nat, m as nat);
                } else {
                    vstd::arithmetic::div_mod::lemma_mod_multiples_vanish(1, v as int, m);
                    vstd::arithmetic::div_mod::lemma_small_mod((v as int + m) as nat, m as nat);
                }
                assert(as_signed64(raw) == v);
            } else {
                let b = bits as nat;
                lemma_pow2_unfold(b);
                lemma_pow2_pos((b - 1) as nat);
                vstd::arithmetic::power2::lemma_pow2_strictly_increases(b, 64);
                lemma_pow2_64();
                let p = pow2(b) as int;
                let h = pow2((b - 1) as nat) as int;
                assert(raw as int == (v as int) % p);
                assert(0 <= raw < p);
                assert(v >= 0 ==> raw as int == v as int) by {
                    if v >= 0 {
                        vstd::arithmetic::div_mod::lemma_small_mod(v as nat, p as nat);
                    }
                }
                assert(v < 0 ==> raw as int == v as int + p) by {
                    if v < 0 {
                        vstd::arithmetic::div_mod::lemma_mod_multiples_vanish(1, v as int, p);
                        vstd::arithmetic::div_mod::lemma_small_mod((v as int + p) as nat, p as nat);
                    }
                }
                lemma_top_field_bit(raw, bits as u64);
                vstd::arithmetic::div_mod::lemma_small_mod(raw as nat, p as nat);
            }
        },
        Value::Float(FloatBits::Single(b)) => {
            assert((b as u64) as int % 0x1_0000_0000int == b as int);
        },
        _ => {},
    }
}

/// A raw field that fits in a storage of a known layout decodes to a value
/// that encodes back to the same field.
pub proof fn law_encode_after_decode(storage: ValueStorage, raw: u64)
    requires
        raw <= spec_max_unsigned(storage.bits),
        storage.kind == ValueKind::Float ==> storage.bits == 32 || storage.bits == 64,
    ensures
        spec_encode_raw(spec_decode_raw(storage, raw), storage) == Ok::<u64, EncodeError>(raw),
{
    let bits = storage.bits;
    match storage.kind {
        ValueKind::Signed => {
            if bits == 0 {
                vstd::arithmetic::power2::lemma2_to64();
            } else if bits >= 64 {
                lemma_pow2_64();
                let v = as_signed64(raw);
                assert(v % 0x1_0000_0000_0000_0000int == raw as int) by {
                    if raw > i64::MAX {
                        vstd::arithmetic::div_mod::lemma_mod_multiples_vanish(
                            -1,
                            raw as int,
                            0x1_0000_0000_0000_0000int,
                        );
                    }
                    vstd::arithmetic::div_mod::lemma_small_mod(
                        raw as nat,
                        0x1_0000_0000_0000_0000nat,
                    );
                }
            } else {
                let b = bits as nat;
                lemma_pow2_unfold(b);
                lemma_pow2_pos((b - 1) as nat);
                let p = pow2(b) as int;
                lemma_top_field_bit(raw, bits as u64);
                vstd::arithmetic::div_mod::lemma_small_mod(raw as nat, p as nat);
                vstd::arithmetic::power2::lemma_pow2_strictly_increases((b - 1) as nat, 63);
                vstd::arithmetic::power2::lemma_pow2_strictly_increases(b, 64);
                lemma2_to64_rest();
                lemma_pow2_64();
                let v = spec_sign_extend(raw, bits);
                assert(v % p == raw as int) by {
                    if raw >= pow2((b - 1) as nat) {
                        vstd::arithmetic::div_mod::lemma_mod_multiples_vanish(
                            -1,
                            raw as int,
                            p,
                        );
                    }
                }
            }
        },
        ValueKind::Float => {
            if bits == 32 {
                lemma2_to64();
                vstd::arithmetic::div_mod::lemma_small_mod(raw as nat, 0x1_0000_0000nat);
            }
        },
        ValueKind::Unsigned => {},
    }
}

/// An encoded field never has bits beyond the storage's width.
pub proof fn lemma_encoded_fits(value: Value, storage: ValueStorage)
    requires
        spec_encode_raw(value, storage) is Ok,
    ensures
        spec_encode_raw(value, storage)->Ok_0 <= spec_max_unsigned(storage.bits),
{
    let bits = storage.bits;
    if bits < 64 {
        lemma_pow2_pos(bits as nat);
    }
    match value {
        Value::Float(FloatBits::Single(b)) => {
            lemma2_to64();
            lemma2_to64_rest();
        },
        _ => {},
    }
}

/// Whether a float value already has the width of a float storage.
pub fn fits_float_width(value: Value, storage: ValueStorage) -> (fits: bool)
    ensures
        fits == float_width_fits(value, storage),
{
    match value {
        Value::Float(FloatBits::Single(_)) => !(storage.kind == ValueKind::Float && storage.bits == 64),
        Value::Float(FloatBits::Double(_)) => !(storage.kind == ValueKind::Float && storage.bits == 32),
        _ => true,
    }
}

impl Value {
    /// The value as a signed 64-bit integer, when it is an integer that fits.
    pub fn integer_value(&self) -> (result: Option<i64>)
        ensures
            result == match *self {
                Value::Unsigned(v) => if v <= i64::MAX {
                    Some(v as i64)
                } else {
                    None
                },
                Value::Signed(v) => Some(v),
                Value::Float(_) => None,
            },
    {
        match *self {
            Value::Unsigned(v) => if v <= i64::MAX as u64 {
                Some(v as i64)
            } else {
                None
            },
            Value::Signed(v) => Some(v),
            Value::Float(_) => None,
        }
    }

    /// The raw field that holds `self` in `storage`.
    pub fn encode_raw(self, storage: ValueStorage) -> (raw: Result<u64, EncodeError>)
        requires
            float_width_fits(self, storage),
        ensures
            raw == spec_encode_raw(self, storage),
    {
        match (self, storage.kind) {
            (Value::Unsigned(value), ValueKind::Unsigned) => {
                let max = max_unsigned(storage.bits);
                if value > max {
                    Err(EncodeError::OutOfRange)
                } else {
                    Ok(value)
                }
            },
            (Value::Signed(value), ValueKind::Signed) => {
                let bits = storage.bits;
                let (min, max) = signed_range(bits);
                if value < min || value > max {
                    return Err(EncodeError::OutOfRange);
                }
                if bits >= 64 {
                    proof {
                        lemma_twos_complement_64(value);
                        lemma_pow2_64();
                    }
                    Ok(value as u64)
                } else {
                    let mask = max_unsigned(bits);
                    proof {
                        lemma_twos_complement_mask(value, bits as u64);
                        lemma_shl_one(bits as u64);
                        lemma_pow2_pos(bits as nat);
                    }
                    Ok((value as u64) & mask)
                }
            },
            (Value::Float(FloatBits::Single(b)), ValueKind::Float) => if storage.bits == 32 {
                Ok(b as u64)
            } else {
                Err(EncodeError::TypeMismatch)
            },
            (Value::Float(FloatBits::Double(b)), ValueKind::Float) => if storage.bits == 64 {
                Ok(b)
            } else {
                Err(EncodeError::TypeMismatch)
            },
            _ => Err(EncodeError::TypeMismatch),
        }
    }

    /// The value that the raw field `raw` holds in `storage`.
    pub fn decode_raw(storage: ValueStorage, raw: u64) -> (value: Value)
        ensures
            value == spec_decode_raw(storage, raw),
    {
        match storage.kind {
            ValueKind::Unsigned => Value::Unsigned(raw),
            ValueKind::Signed => Value::Signed(sign_extend(raw, storage.bits)),
            ValueKind::Float => if storage.bits == 32 {
                proof {
                    lemma_u64_as_u32(raw);
                }
                Value::Float(FloatBits::Single(raw as u32))
            } else {
                Value::Float(FloatBits::Double(raw))
            },
        }
    }
}

/// Why a typed value could not be read.
#[derive(Clone, Copy, Debug, PartialEq, Eq, Structural)]
pub enum ValueParseError {
    /// Not an unsigned 64-bit integer.
    InvalidUnsigned,
    /// Not a signed 64-bit integer.
    InvalidSigned,
}

impl Value {
    /// Reads `input`, trimmed, as a signed or unsigned 64-bit integer value
    /// (floats are read by the caller).
    pub fn parse_integer(input: &str, signed: bool) -> (result: Result<Value, ValueParseError>)
        ensures
            !signed ==> result == match spec_parse_u64(trim(input@)) {
                Some(v) => Ok::<Value, ValueParseError>(Value::Unsigned(v)),
                None => Err(ValueParseError::InvalidUnsigned),
            },
            signed ==> result == match spec_parse_i64(trim(input@)) {
                Some(v) => Ok::<Value, ValueParseError>(Value::Signed(v)),
                None => Err(ValueParseError::InvalidSigned),
            },
    {
        if signed {
            match parse_signed(input) {
                Some(v) => Ok(Value::Signed(v)),
                None => Err(ValueParseError::InvalidSigned),
            }
        } else {
            match parse_unsigned(input) {
                Some(v) => Ok(Value::Unsigned(v)),
                None => Err(ValueParseError::InvalidUnsigned),
            }
        }
    }
}

} // verus!
