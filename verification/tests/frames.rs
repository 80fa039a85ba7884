use sdodps::bits::{extract_bits, insert_bits};
use sdodps::can::{padded_payload, CanFrame as BusFrame, FrameError};
use sdodps::codec::{frame_data, sdo_frame, SdoOpcode};
use sdodps::dbc::{EncodeError, FloatBits, SdoBoardDef, SdoVariableDef, Value, ValueKind, ValueStorage};
use sdodps::sdo::{get_request, maybe_decode_response, set_request, ResponseError};
use std::collections::BTreeMap;

fn storage(kind: ValueKind, bits: u16) -> ValueStorage {
    ValueStorage { kind, bits }
}

fn variable(id: u16, name: &str, wire: ValueStorage) -> SdoVariableDef {
    SdoVariableDef {
        id,
        name: name.to_string(),
        storage: wire,
        wire_storage: wire,
        factor_bits: 1.0f64.to_bits(),
        offset_bits: 0.0f64.to_bits(),
        unit: None,
        enum_values: BTreeMap::new(),
    }
}

fn board(variables: Vec<SdoVariableDef>) -> SdoBoardDef {
    SdoBoardDef { name: "PCU".to_string(), message_id: 0x1f4, variables }
}

fn response(id: u32, opcode: u8, var_id: u16, value: u32) -> BusFrame {
    let mut data = [0u8; 8];
    insert_bits(&mut data, 0, 8, opcode as u64);
    insert_bits(&mut data, 8, 10, var_id as u64);
    insert_bits(&mut data, 24, 32, value as u64);
    BusFrame::from_raw(id, data)
}

#[test]
fn generated_sdo_frame_uses_the_dbc_layout() {
    let frame = sdo_frame(0x1f4, SdoOpcode::SetReq, 0x155, 0x5a, 8);
    let payload = frame.payload.to_le_bytes();

    assert_eq!(frame.id, 0x1f4);
    assert_eq!(frame.dlc, 7);
    assert_eq!(extract_bits(&payload, 0, 8), SdoOpcode::SetReq.code());
    assert_eq!(extract_bits(&payload, 8, 10), 0x155);
    assert_eq!(extract_bits(&payload, 24, 8), 0x5a);
}

#[test]
fn extracts_only_the_declared_boolean_bit() {
    let mut payload = [0u8; 7];
    payload[3] = 200;
    assert_eq!(extract_bits(&payload, 24, 1), 0);

    payload[3] = 201;
    assert_eq!(extract_bits(&payload, 24, 1), 1);
}

#[test]
fn opcodes_have_their_bus_numbers() {
    assert_eq!(SdoOpcode::GetReq.code(), 1);
    assert_eq!(SdoOpcode::SetReq.code(), 2);
    assert_eq!(SdoOpcode::Response.code(), 128);
    assert_eq!(SdoOpcode::ErrOutOfRange.code(), 253);
    assert_eq!(SdoOpcode::ErrWriteReadOnly.code(), 254);
    assert_eq!(SdoOpcode::Error.code(), 255);
    assert_eq!(SdoOpcode::from_code(128), Some(SdoOpcode::Response));
    assert_eq!(SdoOpcode::from_code(3), None);
}

#[test]
fn inserted_field_reads_back_and_keeps_its_neighbours() {
    let mut buffer = [0xffu8; 8];
    insert_bits(&mut buffer, 5, 12, 0xabc);
    assert_eq!(extract_bits(&buffer, 5, 12), 0xabc);
    assert_eq!(extract_bits(&buffer, 0, 5), 0x1f);
    assert_eq!(extract_bits(&buffer, 17, 47), (1u64 << 47) - 1);
}

#[test]
fn insert_keeps_only_the_low_bits_of_the_value() {
    let mut buffer = [0u8; 2];
    insert_bits(&mut buffer, 4, 4, 0xff);
    assert_eq!(buffer, [0xf0, 0x00]);
}

#[test]
fn frame_data_gives_the_first_dlc_bytes() {
    let frame = sdo_frame(0x10, SdoOpcode::GetReq, 3, 0, 0);
    assert_eq!(frame_data(&frame), vec![1, 3, 0, 0, 0, 0, 0]);
}

#[test]
fn value_field_is_capped_at_32_bits() {
    let frame = sdo_frame(0x10, SdoOpcode::SetReq, 1, 0x1_2345_6789, 64);
    let payload = frame.payload.to_le_bytes();
    assert_eq!(extract_bits(&payload, 24, 32), 0x2345_6789);
    assert_eq!(payload[7], 0);
}

#[test]
fn get_request_addresses_the_board() {
    let b = board(vec![]);
    let frame = get_request(&b, 0x3ff);
    assert_eq!(frame.id, 0x1f4);
    assert_eq!(frame.dlc, 7);
    let payload = frame.payload.to_le_bytes();
    assert_eq!(extract_bits(&payload, 0, 8), 1);
    assert_eq!(extract_bits(&payload, 8, 10), 0x3ff);
    assert_eq!(extract_bits(&payload, 18, 38), 0);
}

#[test]
fn set_request_encodes_in_the_wire_type() {
    let v = variable(9, "offset", storage(ValueKind::Signed, 12));
    let b = board(vec![]);
    let frame = set_request(&b, &v, Value::Signed(-2)).unwrap();
    let payload = frame.payload.to_le_bytes();
    assert_eq!(extract_bits(&payload, 0, 8), 2);
    assert_eq!(extract_bits(&payload, 8, 10), 9);
    assert_eq!(extract_bits(&payload, 24, 12), 0xffe);
    assert_eq!(extract_bits(&payload, 36, 20), 0);
}

#[test]
fn set_request_refuses_what_does_not_encode() {
    let v = variable(9, "level", storage(ValueKind::Unsigned, 4));
    let b = board(vec![]);
    assert_eq!(set_request(&b, &v, Value::Unsigned(16)), Err(EncodeError::OutOfRange));
    assert_eq!(set_request(&b, &v, Value::Signed(1)), Err(EncodeError::TypeMismatch));
}

#[test]
fn response_for_the_variable_gives_its_value() {
    let v = variable(7, "gain", storage(ValueKind::Unsigned, 16));
    let b = board(vec![]);
    let frame = response(0x1f4, 128, 7, 0x1234);
    assert_eq!(maybe_decode_response(&frame, &b, &v), Ok(Some(Value::Unsigned(0x1234))));
}

#[test]
fn response_decodes_signed_and_float_fields() {
    let b = board(vec![]);
    let signed = variable(7, "trim", storage(ValueKind::Signed, 8));
    assert_eq!(maybe_decode_response(&response(0x1f4, 128, 7, 0xfe), &b, &signed), Ok(Some(Value::Signed(-2))));
    let float = variable(7, "ratio", storage(ValueKind::Float, 32));
    let bits = 1.25f32.to_bits();
    assert_eq!(
        maybe_decode_response(&response(0x1f4, 128, 7, bits), &b, &float),
        Ok(Some(Value::Float(FloatBits::Single(bits))))
    );
}

#[test]
fn frames_for_other_messages_or_variables_are_not_answers() {
    let v = variable(7, "gain", storage(ValueKind::Unsigned, 16));
    let b = board(vec![]);
    assert_eq!(maybe_decode_response(&response(0x1f5, 128, 7, 1), &b, &v), Ok(None));
    assert_eq!(maybe_decode_response(&response(0x1f4, 128, 8, 1), &b, &v), Ok(None));
}

#[test]
fn error_opcodes_become_errors() {
    let v = variable(7, "gain", storage(ValueKind::Unsigned, 16));
    let b = board(vec![]);
    assert_eq!(maybe_decode_response(&response(0x1f4, 253, 7, 0), &b, &v), Err(ResponseError::OutOfRange));
    assert_eq!(maybe_decode_response(&response(0x1f4, 254, 7, 0), &b, &v), Err(ResponseError::ReadOnly));
    assert_eq!(maybe_decode_response(&response(0x1f4, 255, 7, 0), &b, &v), Err(ResponseError::Generic));
    assert_eq!(
        maybe_decode_response(&response(0x1f4, 2, 7, 0), &b, &v),
        Err(ResponseError::UnexpectedOpcode(2))
    );
}

#[test]
fn an_echoed_set_reads_back_the_value() {
    let v = variable(5, "limit", storage(ValueKind::Signed, 16));
    let b = board(vec![]);
    let request = set_request(&b, &v, Value::Signed(-300)).unwrap();
    let mut data = [0u8; 8];
    data.copy_from_slice(&request.payload.to_le_bytes());
    data[0] = 128;
    let echoed = BusFrame::from_raw(0x1f4, data);
    assert_eq!(maybe_decode_response(&echoed, &b, &v), Ok(Some(Value::Signed(-300))));
}

#[test]
fn received_ids_lose_the_extended_flag() {
    let frame = BusFrame::from_raw(0x8000_01f4, [0; 8]);
    assert_eq!(frame.id, 0x1f4);
}

#[test]
fn payloads_are_padded_to_eight_bytes() {
    let (data, dlc) = padded_payload(&[1, 2, 3]).unwrap();
    assert_eq!(data, [1, 2, 3, 0, 0, 0, 0, 0]);
    assert_eq!(dlc, 3);
    assert_eq!(padded_payload(&[0; 9]), Err(FrameError::PayloadTooLarge(9)));
}
