use sdodps::annotations::{parse_value_pairs, DbcAnnotations, DbcError};
use sdodps::boards::{sdo_board, LoadError};
use sdodps::codec::{MessageInfo, SignalInfo};
use sdodps::dbc::{Database, ValueKind, ValueStorage};
use sdodps::messages::parse_message_table;
use std::collections::BTreeMap;

const DBC: &str = "VERSION \"\"\n\
BU_: PCU MCU DASH\n\
VAL_TABLE_ missions 0 \"idle\" 1 \"accel\" 2 \"autocross\" ;\n\
BO_ 501 SDO_MCU: 8 MCU\n\
 SG_ opcode : 0|8@1+ (1,0) [0|255] \"\" DASH\n\
 SG_ var_id M : 8|10@1+ (1,0) [0|1023] \"\" DASH\n\
 SG_ flags : 18|6@1+ (1,0) [0|63] \"\" DASH\n\
 SG_ dbc_hash : 56|8@1+ (1,0) [0|255] \"\" DASH\n\
 SG_ current_m_mission m2 : 24|8@1+ (1,0) [0|255] \"\" DASH\n\
 SG_ kp m1 : 24|32@1- (0.05,0) [0|0] \"A/V\" DASH\n\
 SG_ ratio m3 : 24|32@1+ (1,0) [0|0] \"\" DASH\n\
BO_ 508 SDOPCU: 8 Vector__XXX\n\
 SG_ opcode : 0|8@1+ (1,0) [0|255] \"\" DASH\n\
 SG_ var_id M : 8|10@1+ (1,0) [0|1023] \"\" DASH\n\
 SG_ flags : 18|6@1+ (1,0) [0|63] \"\" DASH\n\
 SG_ dbc_hash : 56|8@1+ (1,0) [0|255] \"\" DASH\n\
 SG_ level m4 : 24|12@1- (1,0) [0|0] \"\" DASH\n\
BO_ 300 STATUS: 8 PCU\n\
 SG_ speed : 0|16@1+ (0.1,0) [0|0] \"km/h\" DASH\n\
VAL_ 501 current_m_mission missions;\n\
VAL_ 501 kp 0 \"off\" 1 \"on\" ;\n\
SIG_VALTYPE_ 501 ratio : 1;\n";

fn signal_info(name: &str, switch: Option<u64>, multiplexor: bool, start: u16, len: u16) -> SignalInfo {
    SignalInfo {
        name: name.to_string(),
        start_bit: start,
        bit_length: len,
        signed: false,
        floating: false,
        scaling_bits: 1.0f64.to_bits(),
        offset_bits: 0.0f64.to_bits(),
        units: String::new(),
        multiplexor,
        multiplexed: switch.is_some(),
        switch_value: switch,
    }
}

fn messages() -> Vec<MessageInfo> {
    parse_message_table(DBC)
        .unwrap()
        .into_iter()
        .map(|m| MessageInfo {
            id: m.id,
            name: m.name,
            signals: m
                .signals
                .into_iter()
                .map(|s| SignalInfo {
                    name: s.name,
                    start_bit: s.start_bit,
                    bit_length: s.bit_length,
                    signed: s.signed,
                    floating: s.floating,
                    scaling_bits: s.factor.parse::<f64>().unwrap().to_bits(),
                    offset_bits: s.offset.parse::<f64>().unwrap().to_bits(),
                    units: s.unit,
                    multiplexor: s.multiplexor,
                    multiplexed: s.switch_value.is_some(),
                    switch_value: s.switch_value,
                })
                .collect(),
        })
        .collect()
}

#[test]
fn value_pairs_read_numbers_and_labels() {
    let pairs = parse_value_pairs(" 0 \"off\" -1 \"neg\" 2 \"two words\" ;").unwrap();
    assert_eq!(pairs.len(), 3);
    assert_eq!(pairs.get(&0), Some(&"off".to_string()));
    assert_eq!(pairs.get(&-1), Some(&"neg".to_string()));
    assert_eq!(pairs.get(&2), Some(&"two words".to_string()));
}

#[test]
fn later_labels_replace_earlier_ones() {
    let pairs = parse_value_pairs("1 \"a\" 1 \"b\"").unwrap();
    assert_eq!(pairs.len(), 1);
    assert_eq!(pairs.get(&1), Some(&"b".to_string()));
}

#[test]
fn value_pairs_stop_at_what_is_not_a_pair() {
    assert!(parse_value_pairs("missions;").unwrap().is_empty());
    assert!(parse_value_pairs("").unwrap().is_empty());
    assert_eq!(parse_value_pairs("3 \"x\" name").unwrap().len(), 1);
    assert_eq!(parse_value_pairs("3 \"x\" 4").unwrap().len(), 1);
}

#[test]
fn bad_value_descriptions_are_errors() {
    assert_eq!(parse_value_pairs("1 \"open"), Err(DbcError::UnterminatedLabel));
    assert_eq!(parse_value_pairs("- \"x\""), Err(DbcError::InvalidNumber));
    assert_eq!(parse_value_pairs("99999999999999999999 \"x\""), Err(DbcError::InvalidNumber));
}

#[test]
fn annotations_give_nodes_senders_and_value_tables() {
    let annotations = DbcAnnotations::parse(DBC).unwrap();
    assert_eq!(annotations.nodes, vec!["PCU".to_string(), "MCU".to_string(), "DASH".to_string()]);
    assert_eq!(annotations.senders.get(&501), Some(&"MCU".to_string()));
    assert_eq!(annotations.senders.get(&508), Some(&"Vector__XXX".to_string()));
    assert_eq!(annotations.value_tables.len(), 2);
    assert_eq!(annotations.value_tables[0].signal, "kp");
    assert_eq!(annotations.value_tables[0].values.get(&1), Some(&"on".to_string()));
    assert_eq!(annotations.value_tables[1].signal, "current_m_mission");
    assert_eq!(annotations.value_tables[1].values.get(&2), Some(&"autocross".to_string()));
}

#[test]
fn bad_message_ids_are_errors() {
    assert!(matches!(DbcAnnotations::parse("BO_ x1 NAME: 8 PCU\n"), Err(DbcError::InvalidNumber)));
    assert!(matches!(DbcAnnotations::parse("BO_ x1 NAME:\n"), Ok(_)));
    assert!(matches!(DbcAnnotations::parse("VAL_ 12x sig 1 \"a\";\n"), Err(DbcError::InvalidNumber)));
}

#[test]
fn message_table_reads_messages_and_signals() {
    let table = parse_message_table(DBC).unwrap();
    assert_eq!(table.len(), 3);
    assert_eq!(table[0].id, 501);
    assert_eq!(table[0].name, "SDO_MCU");
    assert_eq!(table[0].signals.len(), 7);
    let var_id = &table[0].signals[1];
    assert!(var_id.multiplexor);
    assert_eq!(var_id.switch_value, None);
    let kp = &table[0].signals[5];
    assert_eq!(kp.name, "kp");
    assert_eq!(kp.switch_value, Some(1));
    assert_eq!((kp.start_bit, kp.bit_length), (24, 32));
    assert!(kp.signed);
    assert_eq!(kp.factor, "0.05");
    assert_eq!(kp.offset, "0");
    assert_eq!(kp.unit, "A/V");
    assert!(!kp.floating);
    assert!(table[0].signals[6].floating);
    assert_eq!(table[2].signals[0].unit, "km/h");
}

#[test]
fn malformed_message_tables_are_errors() {
    assert!(matches!(parse_message_table(" SG_ a : 0|8@1+ (1,0) [0|1] \"\" X\n"), Err(DbcError::MalformedSignal)));
    assert!(matches!(parse_message_table("BO_ 1 A: 8 X\n SG_ a : 0|8 (1,0) [0|1] \"\" X\n"), Err(DbcError::MalformedSignal)));
    assert!(matches!(parse_message_table("BO_ 1\n"), Err(DbcError::MalformedMessage)));
    assert!(matches!(parse_message_table("BO_ one A: 8 X\n"), Err(DbcError::InvalidNumber)));
}

#[test]
fn sdo_boards_come_from_sdo_messages_with_variables() {
    let annotations = DbcAnnotations::parse(DBC).unwrap();
    let messages = messages();
    let mcu = sdo_board(&messages[0], "MCU".to_string(), &annotations.value_tables).unwrap();
    assert_eq!(mcu.message_id, 501);
    let ids = mcu.variables.iter().map(|v| v.id).collect::<Vec<_>>();
    assert_eq!(ids, vec![1, 2, 3]);
    assert_eq!(mcu.variables[0].name, "kp");
    assert_eq!(mcu.variables[0].storage, ValueStorage { kind: ValueKind::Float, bits: 32 });
    assert_eq!(mcu.variables[0].wire_storage, ValueStorage { kind: ValueKind::Signed, bits: 32 });
    assert_eq!(mcu.variables[0].unit, Some("A/V".to_string()));
    assert_eq!(mcu.variables[0].enum_values.get(&0), Some(&"off".to_string()));
    assert_eq!(mcu.variables[1].enum_values.get(&2), Some(&"autocross".to_string()));
    assert_eq!(mcu.variables[1].storage, ValueStorage { kind: ValueKind::Unsigned, bits: 8 });
    assert_eq!(mcu.variables[2].storage, ValueStorage { kind: ValueKind::Float, bits: 32 });
    assert!(sdo_board(&messages[2], "PCU".to_string(), &annotations.value_tables).is_none());
}

#[test]
fn messages_without_the_sdo_layout_are_not_boards() {
    let message = MessageInfo {
        id: 1,
        name: "SDOX".to_string(),
        signals: vec![
            signal_info("opcode", None, false, 0, 8),
            signal_info("var_id", None, false, 8, 10),
            signal_info("flags", None, false, 18, 6),
            signal_info("dbc_hash", None, false, 56, 8),
            signal_info("x", Some(1), false, 24, 8),
        ],
    };
    assert!(sdo_board(&message, "X".to_string(), &Vec::new()).is_none());
}

#[test]
fn database_sorts_boards_by_name() {
    let annotations = DbcAnnotations::parse(DBC).unwrap();
    let database = Database::from_generated("x.dbc".to_string(), annotations, &messages());
    assert_eq!(database.messages.len(), 3);
    assert_eq!(database.messages.get(&300).map(|m| m.name.clone()), Some("STATUS".to_string()));
    let names = database.sdo_boards.iter().map(|b| b.name.clone()).collect::<Vec<_>>();
    assert_eq!(names, vec!["MCU".to_string(), "Vector__XXX".to_string()]);
    assert_eq!(database.nodes.len(), 3);
    for board in &database.sdo_boards {
        assert!(!board.variables.is_empty());
        assert!(board.variables.windows(2).all(|pair| pair[0].id <= pair[1].id));
        assert!(database.messages.contains_key(&board.message_id));
    }
}

#[test]
fn loading_checks_the_source_and_the_encoding() {
    let messages = messages();
    let raw = DBC.as_bytes();
    assert!(matches!(Database::load("x".to_string(), raw, b"other", &messages), Err(LoadError::SourceMismatch)));
    let bad = [0xffu8, 0xfe];
    assert!(matches!(Database::load("x".to_string(), &bad, &bad, &messages), Err(LoadError::NotUtf8)));
    let broken = b"BO_ x 1 2 3\n";
    assert!(matches!(
        Database::load("x".to_string(), broken, broken, &messages),
        Err(LoadError::Annotations(DbcError::InvalidNumber))
    ));
    let database = Database::load("x".to_string(), raw, raw, &messages).unwrap();
    assert_eq!(database.path, "x");
    assert_eq!(database.sdo_boards.len(), 2);
}

const VEHICLE_DBC: &str = "BU_: PCU MCU VD DASH\n\
BO_ 501 SDO_MCU: 8 MCU\n\
 SG_ opcode : 0|8@1+ (1,0) [0|255] \"\" DASH\n\
 SG_ var_id M : 8|10@1+ (1,0) [0|1023] \"\" DASH\n\
 SG_ flags : 18|6@1+ (1,0) [0|63] \"\" DASH\n\
 SG_ dbc_hash : 56|8@1+ (1,0) [0|255] \"\" DASH\n\
 SG_ current_m_mission m4 : 24|8@1+ (1,0) [0|7] \"\" DASH\n\
BO_ 502 SDO_PCU: 8 PCU\n\
 SG_ opcode : 0|8@1+ (1,0) [0|255] \"\" DASH\n\
 SG_ var_id M : 8|10@1+ (1,0) [0|1023] \"\" DASH\n\
 SG_ flags : 18|6@1+ (1,0) [0|63] \"\" DASH\n\
 SG_ dbc_hash : 56|8@1+ (1,0) [0|255] \"\" DASH\n\
 SG_ sum_factor_air_left m9 : 24|32@1+ (1,0) [0|0] \"\" DASH\n\
BO_ 508 SDO_MCU_VD: 8 VD\n\
 SG_ opcode : 0|8@1+ (1,0) [0|255] \"\" DASH\n\
 SG_ var_id M : 8|10@1+ (1,0) [0|1023] \"\" DASH\n\
 SG_ flags : 18|6@1+ (1,0) [0|63] \"\" DASH\n\
 SG_ dbc_hash : 56|8@1+ (1,0) [0|255] \"\" DASH\n\
 SG_ dms_tires_lat_acc_mult m12 : 24|8@1+ (0.05,0) [0|12.75] \"\" DASH\n\
VAL_ 501 current_m_mission 0 \"idle\" 1 \"acceleration\" 2 \"autocross\" ;\n\
SIG_VALTYPE_ 502 sum_factor_air_left : 1;\n";

fn vehicle() -> Database {
    let raw = VEHICLE_DBC.as_bytes();
    let table = parse_message_table(VEHICLE_DBC).unwrap();
    let messages = table
        .into_iter()
        .map(|m| MessageInfo {
            id: m.id,
            name: m.name,
            signals: m
                .signals
                .into_iter()
                .map(|s| SignalInfo {
                    name: s.name,
                    start_bit: s.start_bit,
                    bit_length: s.bit_length,
                    signed: s.signed,
                    floating: s.floating,
                    scaling_bits: s.factor.parse::<f64>().unwrap().to_bits(),
                    offset_bits: s.offset.parse::<f64>().unwrap().to_bits(),
                    units: s.unit,
                    multiplexor: s.multiplexor,
                    multiplexed: s.switch_value.is_some(),
                    switch_value: s.switch_value,
                })
                .collect(),
        })
        .collect::<Vec<_>>();
    Database::load("dbc/can2.dbc".to_string(), raw, raw, &messages).expect("dbc should load")
}

#[test]
fn loads_sdo_layout_from_2rust_metadata() {
    let database = vehicle();
    assert_eq!(database.messages.len(), parse_message_table(VEHICLE_DBC).unwrap().len());

    let pcu = database.sdo_boards.iter().find(|board| board.name == "PCU").expect("PCU board missing");
    let sum_factor_air_left = pcu
        .variables
        .iter()
        .find(|variable| variable.name == "sum_factor_air_left")
        .expect("sum_factor_air_left missing");
    assert_eq!(sum_factor_air_left.storage.kind, ValueKind::Float);
    assert_eq!(sum_factor_air_left.storage.bits, 32);

    let mcu_vd = database.sdo_boards.iter().find(|board| board.message_id == 508).expect("MCU VD board missing");
    let lat_acc = mcu_vd
        .variables
        .iter()
        .find(|variable| variable.name == "dms_tires_lat_acc_mult")
        .expect("dms_tires_lat_acc_mult missing");
    assert_eq!(lat_acc.storage.kind, ValueKind::Float);
    assert_eq!(lat_acc.wire_storage.kind, ValueKind::Unsigned);
    assert_eq!(lat_acc.wire_storage.bits, 8);
    assert!(lat_acc.is_scaled());
    assert_eq!(lat_acc.factor_bits, 0.05f64.to_bits());
    assert_eq!(sdodps::dbc::Value::decode_raw(lat_acc.wire_storage, 17), sdodps::dbc::Value::Unsigned(17));
    assert_eq!(sdodps::dbc::Value::Unsigned(17).encode_raw(lat_acc.wire_storage), Ok(17));
}

#[test]
fn preserves_named_enum_labels_from_the_dbc() {
    let database = vehicle();
    let mcu = database.sdo_boards.iter().find(|board| board.message_id == 501).expect("MCU board missing");
    let current_m_mission = mcu
        .variables
        .iter()
        .find(|variable| variable.name == "current_m_mission")
        .expect("current_m_mission missing");

    assert_eq!(current_m_mission.enum_values.get(&2), Some(&"autocross".to_string()));
}
