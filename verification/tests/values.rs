use sdodps::codec::SignalInfo;
use sdodps::dbc::{
    fits_float_width, inferred_sender, is_scaling, max_unsigned, normalize_storage_bits, physical_storage,
    sign_extend, signed_range, wire_storage, EncodeError, FloatBits, Value, ValueKind,
    ValueParseError, ValueStorage,
};

fn storage(kind: ValueKind, bits: u16) -> ValueStorage {
    ValueStorage { kind, bits }
}

fn signal(bit_length: u16, signed: bool, floating: bool, factor: f64, offset: f64) -> SignalInfo {
    SignalInfo {
        name: "s".to_string(),
        start_bit: 24,
        bit_length,
        signed,
        floating,
        scaling_bits: factor.to_bits(),
        offset_bits: offset.to_bits(),
        units: String::new(),
        multiplexor: false,
        multiplexed: true,
        switch_value: Some(1),
    }
}

#[test]
fn signed_64_bit_values_round_trip() {
    let storage = ValueStorage { kind: ValueKind::Signed, bits: 64 };
    let raw = Value::Signed(i64::MIN).encode_raw(storage).unwrap();
    assert!(matches!(Value::decode_raw(storage, raw), Value::Signed(i64::MIN)));
}

#[test]
fn unsigned_values_must_fit_their_width() {
    assert_eq!(Value::Unsigned(255).encode_raw(storage(ValueKind::Unsigned, 8)), Ok(255));
    assert_eq!(Value::Unsigned(256).encode_raw(storage(ValueKind::Unsigned, 8)), Err(EncodeError::OutOfRange));
    assert_eq!(Value::Unsigned(u64::MAX).encode_raw(storage(ValueKind::Unsigned, 64)), Ok(u64::MAX));
    assert_eq!(Value::Unsigned(0).encode_raw(storage(ValueKind::Unsigned, 0)), Ok(0));
    assert_eq!(Value::Unsigned(1).encode_raw(storage(ValueKind::Unsigned, 0)), Err(EncodeError::OutOfRange));
}

#[test]
fn signed_values_are_twos_complement_in_their_width() {
    assert_eq!(Value::Signed(-1).encode_raw(storage(ValueKind::Signed, 8)), Ok(0xff));
    assert_eq!(Value::Signed(-128).encode_raw(storage(ValueKind::Signed, 8)), Ok(0x80));
    assert_eq!(Value::Signed(127).encode_raw(storage(ValueKind::Signed, 8)), Ok(0x7f));
    assert_eq!(Value::Signed(128).encode_raw(storage(ValueKind::Signed, 8)), Err(EncodeError::OutOfRange));
    assert_eq!(Value::Signed(-129).encode_raw(storage(ValueKind::Signed, 8)), Err(EncodeError::OutOfRange));
    assert_eq!(Value::Signed(-1).encode_raw(storage(ValueKind::Signed, 64)), Ok(u64::MAX));
}

#[test]
fn kinds_must_match_to_encode() {
    assert_eq!(Value::Signed(1).encode_raw(storage(ValueKind::Unsigned, 8)), Err(EncodeError::TypeMismatch));
    assert_eq!(Value::Unsigned(1).encode_raw(storage(ValueKind::Float, 32)), Err(EncodeError::TypeMismatch));
    let single = Value::Float(FloatBits::Single(0.5f32.to_bits()));
    assert_eq!(single.encode_raw(storage(ValueKind::Float, 32)), Ok(0.5f32.to_bits() as u64));
    let double = Value::Float(FloatBits::Double(0.5f64.to_bits()));
    assert_eq!(double.encode_raw(storage(ValueKind::Float, 64)), Ok(0.5f64.to_bits()));
}

#[test]
fn decoding_follows_the_storage() {
    assert_eq!(Value::decode_raw(storage(ValueKind::Unsigned, 8), 0xff), Value::Unsigned(0xff));
    assert_eq!(Value::decode_raw(storage(ValueKind::Signed, 8), 0xff), Value::Signed(-1));
    assert_eq!(Value::decode_raw(storage(ValueKind::Signed, 8), 0x7f), Value::Signed(127));
    assert_eq!(
        Value::decode_raw(storage(ValueKind::Float, 32), 2.5f32.to_bits() as u64),
        Value::Float(FloatBits::Single(2.5f32.to_bits()))
    );
    assert_eq!(
        Value::decode_raw(storage(ValueKind::Float, 64), 2.5f64.to_bits()),
        Value::Float(FloatBits::Double(2.5f64.to_bits()))
    );
}

#[test]
fn width_limits() {
    assert_eq!(max_unsigned(0), 0);
    assert_eq!(max_unsigned(1), 1);
    assert_eq!(max_unsigned(10), 1023);
    assert_eq!(max_unsigned(64), u64::MAX);
    assert_eq!(max_unsigned(70), u64::MAX);
    assert_eq!(signed_range(0), (0, 0));
    assert_eq!(signed_range(1), (-1, 0));
    assert_eq!(signed_range(12), (-2048, 2047));
    assert_eq!(signed_range(64), (i64::MIN, i64::MAX));
}

#[test]
fn sign_extension() {
    assert_eq!(sign_extend(0x800, 12), -2048);
    assert_eq!(sign_extend(0x7ff, 12), 2047);
    assert_eq!(sign_extend(0xffff_ffff_ffff_ffff, 64), -1);
    assert_eq!(sign_extend(5, 0), 5);
}

#[test]
fn integer_views_of_values() {
    assert_eq!(Value::Unsigned(5).integer_value(), Some(5));
    assert_eq!(Value::Unsigned(u64::MAX).integer_value(), None);
    assert_eq!(Value::Signed(-5).integer_value(), Some(-5));
    assert_eq!(Value::Float(FloatBits::Double(0)).integer_value(), None);
}

#[test]
fn integers_are_read_after_trimming() {
    let u = false;
    let i = true;
    assert_eq!(Value::parse_integer(" 42 ", u), Ok(Value::Unsigned(42)));
    assert_eq!(Value::parse_integer("+7", u), Ok(Value::Unsigned(7)));
    assert_eq!(Value::parse_integer("-1", u), Err(ValueParseError::InvalidUnsigned));
    assert_eq!(Value::parse_integer("-9223372036854775808", i), Ok(Value::Signed(i64::MIN)));
    assert_eq!(Value::parse_integer("9223372036854775808", i), Err(ValueParseError::InvalidSigned));
    assert_eq!(Value::parse_integer("1.5", i), Err(ValueParseError::InvalidSigned));
}

#[test]
fn storage_widths_and_kinds_of_signals() {
    assert_eq!(normalize_storage_bits(1), 8);
    assert_eq!(normalize_storage_bits(9), 16);
    assert_eq!(normalize_storage_bits(17), 32);
    assert_eq!(normalize_storage_bits(33), 64);
    assert_eq!(wire_storage(&signal(12, true, false, 1.0, 0.0)), storage(ValueKind::Signed, 12));
    assert_eq!(physical_storage(&signal(12, true, false, 1.0, 0.0)), storage(ValueKind::Signed, 16));
    assert_eq!(physical_storage(&signal(8, false, false, 0.05, 0.0)), storage(ValueKind::Float, 32));
    assert_eq!(physical_storage(&signal(40, false, false, 1.0, -3.0)), storage(ValueKind::Float, 64));
    assert_eq!(wire_storage(&signal(32, false, true, 1.0, 0.0)), storage(ValueKind::Float, 32));
}

#[test]
fn scaling_is_anything_but_unit_factor_and_zero_offset() {
    assert!(!is_scaling(1.0f64.to_bits(), 0.0f64.to_bits()));
    assert!(!is_scaling(1.0f64.to_bits(), (-0.0f64).to_bits()));
    assert!(is_scaling(0.5f64.to_bits(), 0.0f64.to_bits()));
    assert!(is_scaling(1.0f64.to_bits(), 2.0f64.to_bits()));
    assert!(is_scaling(f64::NAN.to_bits(), 0.0f64.to_bits()));
}

#[test]
fn senders_come_from_sdo_message_names() {
    assert_eq!(inferred_sender("SDOPCU"), "PCU");
    assert_eq!(inferred_sender("SDO"), "SDO");
    assert_eq!(inferred_sender("STATUS"), "STATUS");
}

#[test]
fn floats_are_encoded_only_in_their_own_width() {
    let single = Value::Float(FloatBits::Single(0.5f32.to_bits()));
    let double = Value::Float(FloatBits::Double(0.5f64.to_bits()));
    assert!(fits_float_width(single, storage(ValueKind::Float, 32)));
    assert!(!fits_float_width(single, storage(ValueKind::Float, 64)));
    assert!(fits_float_width(double, storage(ValueKind::Float, 64)));
    assert!(!fits_float_width(double, storage(ValueKind::Float, 32)));
    assert!(fits_float_width(double, storage(ValueKind::Unsigned, 32)));
    assert!(fits_float_width(Value::Unsigned(1), storage(ValueKind::Float, 32)));
}
