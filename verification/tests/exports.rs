use sdodps::app::CachedValue;
use sdodps::dbc::{Database, FloatBits, SdoBoardDef, SdoVariableDef, Value, ValueKind, ValueStorage};
use sdodps::exports::{
    export_entry, export_file_name, export_from_cached_values, export_to_value, filtered_boards, find_board,
    find_variable, plan_import, storage_tag, value_to_export, ExportEntry, ExportFile, ExportValue,
};
use sdodps::sdo::{list_lines, LookupError};
use std::collections::BTreeMap;

fn variable(id: u16, name: &str, kind: ValueKind, bits: u16) -> SdoVariableDef {
    let storage = ValueStorage { kind, bits };
    SdoVariableDef {
        id,
        name: name.to_string(),
        storage,
        wire_storage: storage,
        factor_bits: 1.0f64.to_bits(),
        offset_bits: 0.0f64.to_bits(),
        unit: None,
        enum_values: BTreeMap::new(),
    }
}

fn database(boards: Vec<SdoBoardDef>) -> Database {
    Database { path: "dbc/can2.dbc".to_string(), nodes: Vec::new(), messages: BTreeMap::new(), sdo_boards: boards }
}

fn pcu() -> SdoBoardDef {
    SdoBoardDef {
        name: "PCU".to_string(),
        message_id: 123,
        variables: vec![
            variable(42, "second", ValueKind::Unsigned, 16),
            variable(7, "first", ValueKind::Float, 32),
        ],
    }
}

fn entry(board: &str, variable: &str, tag: &str, value: ExportValue) -> ExportEntry {
    ExportEntry {
        board: board.to_string(),
        variable: variable.to_string(),
        type_tag: tag.to_string(),
        var_id: 0,
        unit: None,
        value,
    }
}

#[test]
fn storage_tag_uses_kind_and_bits() {
    assert_eq!(storage_tag(ValueStorage { kind: ValueKind::Unsigned, bits: 8 }), "u8");
    assert_eq!(storage_tag(ValueStorage { kind: ValueKind::Signed, bits: 16 }), "i16");
    assert_eq!(storage_tag(ValueStorage { kind: ValueKind::Float, bits: 32 }), "f32");
}

#[test]
fn export_from_cache_is_order_independent() {
    let database = database(vec![pcu()]);
    let cached = vec![
        CachedValue {
            board: "PCU".to_string(),
            var_id: 42,
            value: Value::Unsigned(99),
            updated_at: std::time::Instant::now(),
        },
        CachedValue {
            board: "PCU".to_string(),
            var_id: 7,
            value: Value::Float(FloatBits::Single(1.5f32.to_bits())),
            updated_at: std::time::Instant::now(),
        },
    ];

    let export = export_from_cached_values(&database, &cached);
    let keys = export
        .entries
        .into_iter()
        .map(|entry| (entry.board, entry.variable, entry.type_tag))
        .collect::<Vec<_>>();

    assert_eq!(
        keys,
        vec![
            ("PCU".to_string(), "first".to_string(), "f32".to_string()),
            ("PCU".to_string(), "second".to_string(), "u16".to_string()),
        ]
    );
}

#[test]
fn export_skips_values_the_database_does_not_know() {
    let database = database(vec![pcu()]);
    let cached = vec![
        CachedValue { board: "MCU".to_string(), var_id: 7, value: Value::Unsigned(1), updated_at: std::time::Instant::now() },
        CachedValue { board: "PCU".to_string(), var_id: 8, value: Value::Unsigned(1), updated_at: std::time::Instant::now() },
        CachedValue { board: "PCU".to_string(), var_id: 42, value: Value::Unsigned(5), updated_at: std::time::Instant::now() },
    ];
    let export = export_from_cached_values(&database, &cached);
    assert_eq!(export.version, 1);
    assert_eq!(export.entries.len(), 1);
    assert_eq!(export.entries[0].variable, "second");
    assert_eq!(export.entries[0].var_id, 42);
    assert!(matches!(export.entries[0].value, ExportValue::Unsigned { value: 5 }));
}

#[test]
fn export_values_round_trip() {
    let values = [Value::Unsigned(3), Value::Signed(-3), Value::Float(FloatBits::Double(2.0f64.to_bits()))];
    for value in values {
        assert_eq!(export_to_value(value_to_export(value)), value);
    }
    assert_eq!(value_to_export(Value::Signed(-3)), ExportValue::Signed { value: -3 });
}

#[test]
fn export_entry_records_names_type_and_value() {
    let board = pcu();
    let entry = export_entry(&board, &board.variables[0], Value::Unsigned(12));
    assert_eq!(entry.board, "PCU");
    assert_eq!(entry.variable, "second");
    assert_eq!(entry.type_tag, "u16");
    assert_eq!(entry.var_id, 42);
    assert_eq!(entry.value, ExportValue::Unsigned { value: 12 });
}

#[test]
fn lookups_find_the_first_match() {
    let boards = vec![pcu(), pcu()];
    assert_eq!(find_board(&boards, "PCU"), Some(0));
    assert_eq!(find_board(&boards, "MCU"), None);
    assert_eq!(find_variable(&boards[0].variables, 7), Some(1));
    assert_eq!(find_variable(&boards[0].variables, 8), None);
}

#[test]
fn board_filter_must_name_a_board() {
    let mut mcu = pcu();
    mcu.name = "MCU".to_string();
    let database = database(vec![pcu(), mcu]);
    assert_eq!(filtered_boards(&database, None), Ok(vec![0, 1]));
    assert_eq!(filtered_boards(&database, Some("MCU")), Ok(vec![1]));
    assert_eq!(filtered_boards(&database, Some("XCU")), Err(LookupError::BoardNotFound));
}

#[test]
fn restore_matches_by_board_variable_and_type() {
    let database = database(vec![pcu()]);
    let export = ExportFile {
        version: 1,
        entries: vec![
            entry("PCU", "first", "f32", ExportValue::Float { value: FloatBits::Single(2.0f32.to_bits()) }),
            entry("PCU", "second", "u8", ExportValue::Unsigned { value: 1 }),
            entry("PCU", "third", "u8", ExportValue::Unsigned { value: 1 }),
            entry("PCU", "second", "u16", ExportValue::Unsigned { value: 77 }),
        ],
    };
    let plan = plan_import(&export, &database, None).unwrap();
    assert_eq!(plan.sets.len(), 2);
    assert_eq!((plan.sets[0].board, plan.sets[0].variable), (0, 1));
    assert_eq!(plan.sets[0].value, Value::Float(FloatBits::Single(2.0f32.to_bits())));
    assert_eq!((plan.sets[1].board, plan.sets[1].variable), (0, 0));
    assert_eq!(plan.sets[1].value, Value::Unsigned(77));
    assert_eq!(plan.type_mismatches, vec!["PCU.second export=u8 dbc=u16".to_string()]);
    assert_eq!(plan.missing, vec!["PCU.third [u8]".to_string()]);
}

#[test]
fn restore_of_one_board_skips_the_others() {
    let mut mcu = pcu();
    mcu.name = "MCU".to_string();
    let database = database(vec![pcu(), mcu]);
    let export = ExportFile {
        version: 1,
        entries: vec![
            entry("PCU", "second", "u16", ExportValue::Unsigned { value: 1 }),
            entry("MCU", "second", "u16", ExportValue::Unsigned { value: 2 }),
            entry("MCU", "gone", "u16", ExportValue::Unsigned { value: 3 }),
        ],
    };
    let plan = plan_import(&export, &database, Some("MCU")).unwrap();
    assert_eq!(plan.sets.len(), 1);
    assert_eq!((plan.sets[0].board, plan.sets[0].variable), (1, 0));
    assert_eq!(plan.sets[0].value, Value::Unsigned(2));
    assert_eq!(plan.missing, vec!["MCU.gone [u16]".to_string()]);
    assert!(plan.type_mismatches.is_empty());
    assert!(matches!(plan_import(&export, &database, Some("XCU")), Err(LookupError::BoardNotFound)));
}

#[test]
fn listings_of_boards_and_variables() {
    let database = database(vec![pcu()]);
    assert_eq!(list_lines(&database, None), Ok(vec!["PCU\t2".to_string()]));
    assert_eq!(
        list_lines(&database, Some("PCU")),
        Ok(vec!["PCU\tsecond\tu16\t42".to_string(), "PCU\tfirst\tf32\t7".to_string()])
    );
    assert_eq!(list_lines(&database, Some("MCU")), Err(LookupError::BoardNotFound));
}

#[test]
fn export_is_the_same_for_a_reordered_cache() {
    let database = database(vec![pcu()]);
    let make = |var_id: u16, value: Value| CachedValue {
        board: "PCU".to_string(),
        var_id,
        value,
        updated_at: std::time::Instant::now(),
    };
    let forward = vec![make(42, Value::Unsigned(1)), make(7, Value::Float(FloatBits::Single(3.0f32.to_bits())))];
    let backward = vec![make(7, Value::Float(FloatBits::Single(3.0f32.to_bits()))), make(42, Value::Unsigned(1))];
    let a = export_from_cached_values(&database, &forward);
    let b = export_from_cached_values(&database, &backward);
    let view = |file: &ExportFile| {
        file.entries.iter().map(|e| (e.board.clone(), e.variable.clone(), e.type_tag.clone(), e.value)).collect::<Vec<_>>()
    };
    assert_eq!(view(&a), view(&b));
}

#[test]
fn restore_does_not_use_the_saved_var_id() {
    let database = database(vec![pcu()]);
    let mut moved = entry("PCU", "second", "u16", ExportValue::Unsigned { value: 9 });
    moved.var_id = 999;
    let export = ExportFile { version: 1, entries: vec![moved] };
    let plan = plan_import(&export, &database, None).unwrap();
    assert_eq!(plan.sets.len(), 1);
    assert_eq!((plan.sets[0].board, plan.sets[0].variable), (0, 0));
    assert_eq!(plan.sets[0].value, Value::Unsigned(9));
}

#[test]
fn export_file_names_carry_scope_and_time() {
    assert_eq!(export_file_name(None, 1712345678), "export_all_1712345678.toml");
    assert_eq!(export_file_name(Some("PCU"), 5), "export_PCU_5.toml");
}
