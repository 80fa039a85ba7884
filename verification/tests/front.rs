use sdodps::app::{
    first_word_of, get_payload, App, AppError, FrameOutcome, InputMode, Key,
    KeyCommand, Pane, SortDirection, SortField, LOG_CAPACITY, LOG_LINES_SHOWN,
};
use sdodps::bits::{extract_bits, insert_bits};
use sdodps::can::CanFrame;
use sdodps::config::{DbccRuntime, RuntimeConfig};
use sdodps::dbc::{Database, EncodeError, SdoBoardDef, SdoVariableDef, Value, ValueKind, ValueStorage};
use std::collections::BTreeMap;

fn variable(id: u16, name: &str, kind: ValueKind, bits: u16) -> SdoVariableDef {
    let storage = ValueStorage { kind, bits };
    SdoVariableDef {
        id,
        name: name.to_string(),
        storage,
        wire_storage: storage,
        factor_bits: 1.0f64.to_bits(),
        offset_bits: 0.0f64.to_bits(),
        unit: Some("V".to_string()),
        enum_values: BTreeMap::new(),
    }
}

fn app() -> App {
    let boards = vec![
        SdoBoardDef {
            name: "MCU".to_string(),
            message_id: 501,
            variables: vec![
                variable(1, "Speed_Limit", ValueKind::Unsigned, 16),
                variable(2, "mode", ValueKind::Unsigned, 8),
                variable(3, "wide", ValueKind::Signed, 64),
            ],
        },
        SdoBoardDef {
            name: "PCU".to_string(),
            message_id: 508,
            variables: vec![variable(7, "kp", ValueKind::Signed, 16)],
        },
    ];
    App::new(
        runtime(),
        Database { path: "x.dbc".to_string(), nodes: Vec::new(), messages: BTreeMap::new(), sdo_boards: boards },
        None,
        DbccRuntime::not_found(),
    )
}

fn runtime() -> RuntimeConfig {
    RuntimeConfig {
        config_path: "sdodps_gui.toml".to_string(),
        dbc_path: "x.dbc".to_string(),
        socketcan: "vcan0".to_string(),
        dbcc_path: None,
        timeout_ms: 1000,
    }
}

fn frame(id: u32, opcode: u8, var_id: u16, value: u64) -> CanFrame {
    let mut data = [0u8; 8];
    insert_bits(&mut data, 0, 8, opcode as u64);
    insert_bits(&mut data, 8, 10, var_id as u64);
    insert_bits(&mut data, 24, 32, value);
    CanFrame::from_raw(id, data)
}

fn last_log(app: &App) -> (String, String) {
    let entry = app.logs.last().unwrap();
    (entry.title.clone(), entry.detail.clone())
}

fn names(app: &App) -> Vec<String> {
    app.visible_rows().into_iter().map(|row| row.name).collect()
}

#[test]
fn starts_on_the_boards_pane() {
    let app = app();
    assert_eq!(app.pane, Pane::Boards);
    assert_eq!(app.sort_field, SortField::Board);
    assert_eq!(app.sort_direction, SortDirection::Asc);
    assert_eq!(app.logs.len(), 1);
    assert_eq!(
        last_log(&app),
        (
            "startup".to_string(),
            "dbc=x.dbc can=vcan0 dbcc=dbcc non trovato: parser Rust attivo, bindgen runtime disabilitato".to_string()
        )
    );
    assert!(!app.should_quit());
    assert_eq!(app.board_labels(), vec!["MCU [SDO]".to_string(), "PCU [SDO]".to_string()]);
}

#[test]
fn tab_cycles_the_panes() {
    let mut app = app();
    app.handle_key(Key::Tab);
    assert_eq!(app.pane, Pane::Variables);
    app.handle_key(Key::Tab);
    assert_eq!(app.pane, Pane::Log);
    app.handle_key(Key::Tab);
    assert_eq!(app.pane, Pane::Boards);
    app.handle_key(Key::BackTab);
    assert_eq!(app.pane, Pane::Log);
}

#[test]
fn tab_then_back_tab_changes_nothing_else() {
    let mut app = app();
    let logs = app.logs.len();
    let status = app.last_status.clone();
    assert!(matches!(app.handle_key(Key::Tab), KeyCommand::Nothing));
    assert!(matches!(app.handle_key(Key::BackTab), KeyCommand::Nothing));
    assert_eq!(app.pane, Pane::Boards);
    assert_eq!(app.logs.len(), logs);
    assert_eq!(app.last_status, status);
    assert_eq!(app.board_index, 0);
    assert_eq!(app.variable_index, 0);
    assert_eq!(app.sort_field, SortField::Board);
    assert!(app.input_mode.is_none());
}

#[test]
fn arrows_wrap_around() {
    let mut app = app();
    app.handle_key(Key::Up);
    assert_eq!(app.board_index, 1);
    app.handle_key(Key::Down);
    assert_eq!(app.board_index, 0);
    app.handle_key(Key::Tab);
    app.handle_key(Key::Up);
    assert_eq!(app.variable_index, 3);
    app.handle_key(Key::Down);
    assert_eq!(app.variable_index, 0);
}

#[test]
fn table_is_sorted_by_board_then_id() {
    let app = app();
    assert_eq!(names(&app), vec!["Speed_Limit", "mode", "wide", "kp"]);
}

#[test]
fn sort_keys_change_order_and_log() {
    let mut app = app();
    app.handle_key(Key::Char('s'));
    assert_eq!(app.sort_field, SortField::Variable);
    assert_eq!(last_log(&app), ("sort".to_string(), "campo Variable".to_string()));
    assert_eq!(names(&app), vec!["Speed_Limit", "kp", "mode", "wide"]);
    app.handle_key(Key::Char('r'));
    assert_eq!(app.sort_direction, SortDirection::Desc);
    assert_eq!(last_log(&app), ("sort".to_string(), "direzione Desc".to_string()));
    assert_eq!(names(&app), vec!["wide", "mode", "kp", "Speed_Limit"]);
}

#[test]
fn type_sort_compares_tags_as_text() {
    let mut app = app();
    for _ in 0..3 {
        app.handle_key(Key::Char('s'));
    }
    assert_eq!(app.sort_field, SortField::Type);
    assert_eq!(names(&app), vec!["kp", "wide", "Speed_Limit", "mode"]);
}

#[test]
fn board_filter_follows_the_selected_board() {
    let mut app = app();
    app.handle_key(Key::Down);
    app.handle_key(Key::Char('f'));
    assert_eq!(app.board_filter, Some("PCU".to_string()));
    assert_eq!(last_log(&app), ("filter".to_string(), "filtro sulla scheda PCU".to_string()));
    assert_eq!(names(&app), vec!["kp"]);
    app.handle_key(Key::Char('a'));
    assert_eq!(app.board_filter, None);
    assert_eq!(last_log(&app), ("filter".to_string(), "visualizzo tutte le schede".to_string()));
}

#[test]
fn search_ignores_ascii_case() {
    let mut app = app();
    app.handle_key(Key::Char('/'));
    assert!(matches!(app.input_mode, Some(InputMode::Search)));
    for c in "LIM".chars() {
        app.handle_key(Key::Char(c));
    }
    assert_eq!(app.current_prompt(), Some("Filtro: LIM".to_string()));
    assert_eq!(names(&app), vec!["Speed_Limit"]);
    app.handle_key(Key::Backspace);
    assert_eq!(app.search_filter, "LI");
    app.handle_key(Key::Enter);
    assert!(app.input_mode.is_none());
    assert_eq!(app.current_prompt(), None);
    app.handle_key(Key::Esc);
    assert_eq!(app.search_filter, "");
    assert_eq!(last_log(&app), ("filter".to_string(), "filtri azzerati".to_string()));
}

#[test]
fn get_keys_name_the_rows_to_read() {
    let mut app = app();
    app.handle_key(Key::Tab);
    app.handle_key(Key::Down);
    match app.handle_key(Key::Char('g')) {
        KeyCommand::Get { board, var_id } => {
            assert_eq!(board, "MCU");
            assert_eq!(var_id, 2);
        },
        other => panic!("unexpected {:?}", other),
    }
    match app.handle_key(Key::Char('G')) {
        KeyCommand::GetAll { rows } => assert_eq!(rows.len(), 4),
        other => panic!("unexpected {:?}", other),
    }
    assert_eq!(last_log(&app), ("get_all".to_string(), "invio 4 richieste".to_string()));
    assert!(matches!(app.handle_key(Key::Char('x')), KeyCommand::Export));
}

#[test]
fn typing_a_value_asks_for_a_set() {
    let mut app = app();
    app.handle_key(Key::Tab);
    app.handle_key(Key::Char('e'));
    assert_eq!(app.current_prompt(), Some("Set MCU.Speed_Limit [u16]: ".to_string()));
    for c in "123".chars() {
        app.handle_key(Key::Char(c));
    }
    app.handle_key(Key::Backspace);
    assert_eq!(app.current_prompt(), Some("Set MCU.Speed_Limit [u16]: 12".to_string()));
    match app.handle_key(Key::Enter) {
        KeyCommand::SetValue { board, var_id, name, storage, input } => {
            assert_eq!(name, "Speed_Limit");
            assert_eq!(board, "MCU");
            assert_eq!(var_id, 1);
            assert_eq!(storage, ValueStorage { kind: ValueKind::Unsigned, bits: 16 });
            assert_eq!(input, "12");
        },
        other => panic!("unexpected {:?}", other),
    }
    assert!(app.input_mode.is_none());
}

#[test]
fn escape_abandons_a_value() {
    let mut app = app();
    app.handle_key(Key::Enter);
    app.handle_key(Key::Char('9'));
    assert!(matches!(app.handle_key(Key::Esc), KeyCommand::Nothing));
    assert!(app.input_mode.is_none());
}

#[test]
fn the_log_keeps_its_last_lines() {
    let mut app = app();
    for i in 0..(LOG_CAPACITY + 5) {
        app.push_status("t".to_string(), format!("{i}"));
    }
    assert_eq!(app.logs.len(), LOG_CAPACITY);
    assert_eq!(app.logs[0].detail, "5");
    assert_eq!(app.last_status, format!("{}", LOG_CAPACITY + 4));
}

#[test]
fn responses_store_values_and_errors_are_logged() {
    let mut app = app();
    let outcome = app.handle_frame(&frame(508, 128, 7, 0xfffe));
    match outcome {
        FrameOutcome::Stored { board, name, value } => {
            assert_eq!(board, "PCU");
            assert_eq!(name, "kp");
            assert_eq!(value, Value::Signed(-2));
        },
        other => panic!("unexpected {:?}", other),
    }
    assert_eq!(app.lookup_sdo_value("PCU", 7).map(|entry| entry.0), Some(Value::Signed(-2)));
    assert_eq!(app.visible_rows()[3].value, Some(Value::Signed(-2)));
    assert!(matches!(app.handle_frame(&frame(508, 128, 9, 1)), FrameOutcome::Logged));
    assert_eq!(last_log(&app), ("sdo".to_string(), "PCU risposta per var_id sconosciuto 9".to_string()));
    app.handle_frame(&frame(501, 253, 2, 0));
    assert_eq!(last_log(&app).1, "MCU var_id 2 fuori range");
    app.handle_frame(&frame(501, 254, 2, 0));
    assert_eq!(last_log(&app).1, "MCU var_id 2 readonly");
    app.handle_frame(&frame(501, 255, 2, 0));
    assert_eq!(last_log(&app).1, "MCU errore generico su var_id 2");
    app.handle_frame(&frame(501, 1, 2, 0));
    assert_eq!(last_log(&app).1, "MCU opcode 1 inatteso");
    let before = app.logs.len();
    assert!(matches!(app.handle_frame(&frame(999, 128, 2, 0)), FrameOutcome::Ignored));
    assert_eq!(app.logs.len(), before);
}

#[test]
fn wide_responses_do_not_fit() {
    let app = app();
    assert!(!app.frame_fits(&frame(501, 128, 3, 0)));
    assert!(app.frame_fits(&frame(501, 128, 2, 0)));
    assert!(app.frame_fits(&frame(501, 255, 3, 0)));
}

#[test]
fn sent_requests_are_logged() {
    let mut app = app();
    app.record_get("MCU", 2);
    assert_eq!(last_log(&app), ("get".to_string(), "MCU var_id 2".to_string()));
    app.record_set("MCU", "mode", "3");
    assert_eq!(last_log(&app), ("set".to_string(), "MCU mode <= 3".to_string()));
    app.record_value("MCU", "mode", "3");
    assert_eq!(last_log(&app), ("sdo".to_string(), "MCU mode => 3".to_string()));
}

#[test]
fn requests_follow_the_payload_layout() {
    let app = app();
    let (id, payload) = app.get_request("PCU", 7).unwrap();
    assert_eq!(id, 508);
    assert_eq!(payload, get_payload(7));
    assert_eq!(payload, [1, 7, 0, 0, 0, 0, 0]);
    let (id, payload) = app.set_request("MCU", 1, Value::Unsigned(0x1234)).unwrap();
    assert_eq!(id, 501);
    assert_eq!(extract_bits(&payload, 0, 8), 2);
    assert_eq!(extract_bits(&payload, 8, 10), 1);
    assert_eq!(extract_bits(&payload, 24, 16), 0x1234);
    assert_eq!(payload, [2, 1, 0, 0x34, 0x12, 0, 0]);
    assert_eq!(app.get_request("XCU", 1), Err(AppError::BoardNotFound));
    assert_eq!(app.set_request("MCU", 9, Value::Unsigned(1)), Err(AppError::VariableNotFound));
    assert_eq!(app.set_request("MCU", 2, Value::Unsigned(256)), Err(AppError::Encode(EncodeError::OutOfRange)));
    assert!(!app.set_request_fits("MCU", 3, Value::Signed(0)));
    assert!(app.set_request_fits("MCU", 1, Value::Unsigned(1)));
    assert!(app.set_request_fits("XCU", 1, Value::Unsigned(1)));
}

#[test]
fn first_word_of_a_label() {
    assert_eq!(first_word_of("PCU [SDO]"), "PCU");
    assert_eq!(first_word_of("  x y"), "x");
    assert_eq!(first_word_of("   "), "   ");
}

#[test]
fn quitting() {
    let mut app = app();
    app.quit();
    assert!(app.should_quit());
}

#[test]
fn a_bus_that_did_not_open_is_logged() {
    let database = Database { path: "x.dbc".to_string(), nodes: Vec::new(), messages: BTreeMap::new(), sdo_boards: Vec::new() };
    let app = App::new(runtime(), database, Some("no such device".to_string()), DbccRuntime::not_found());
    assert_eq!(app.logs.len(), 2);
    assert_eq!(last_log(&app), ("socketcan".to_string(), "no such device".to_string()));
    assert_eq!(app.last_status, "no such device");
}

fn app_with(variable: SdoVariableDef) -> App {
    let boards = vec![SdoBoardDef { name: "BMS".to_string(), message_id: 520, variables: vec![variable] }];
    App::new(
        runtime(),
        Database { path: "x.dbc".to_string(), nodes: Vec::new(), messages: BTreeMap::new(), sdo_boards: boards },
        None,
        DbccRuntime::not_found(),
    )
}

fn narrow_variable() -> SdoVariableDef {
    let mut narrow = variable(4, "trim", ValueKind::Signed, 16);
    narrow.wire_storage = ValueStorage { kind: ValueKind::Signed, bits: 10 };
    narrow
}

#[test]
fn responses_are_read_in_the_wire_width() {
    let mut app = app_with(narrow_variable());
    match app.handle_frame(&frame(520, 128, 4, 0x3ff)) {
        FrameOutcome::Stored { board, name, value } => {
            assert_eq!(board, "BMS");
            assert_eq!(name, "trim");
            assert_eq!(value, Value::Signed(-1));
        },
        other => panic!("unexpected {:?}", other),
    }
    assert_eq!(app.lookup_sdo_value("BMS", 4).map(|entry| entry.0), Some(Value::Signed(-1)));
    match app.handle_frame(&frame(520, 128, 4, 0x1ff)) {
        FrameOutcome::Stored { value, .. } => assert_eq!(value, Value::Signed(511)),
        other => panic!("unexpected {:?}", other),
    }
}

#[test]
fn set_requests_are_written_in_the_wire_width() {
    let app = app_with(narrow_variable());
    let (id, payload) = app.set_request("BMS", 4, Value::Signed(-1)).unwrap();
    assert_eq!(id, 520);
    assert_eq!(extract_bits(&payload, 24, 10), 0x3ff);
    assert_eq!(extract_bits(&payload, 34, 14), 0);
    assert_eq!(app.set_request("BMS", 4, Value::Signed(511)).map(|r| extract_bits(&r.1, 24, 10)), Ok(0x1ff));
    assert_eq!(app.set_request("BMS", 4, Value::Signed(512)), Err(AppError::Encode(EncodeError::OutOfRange)));
    assert_eq!(app.set_request("BMS", 4, Value::Signed(-513)), Err(AppError::Encode(EncodeError::OutOfRange)));
}

#[test]
fn scaled_responses_are_left_to_the_caller() {
    let mut scaled = variable(5, "temp", ValueKind::Float, 64);
    scaled.wire_storage = ValueStorage { kind: ValueKind::Unsigned, bits: 8 };
    scaled.factor_bits = 0.5f64.to_bits();
    let mut app = app_with(scaled);
    match app.handle_frame(&frame(520, 128, 5, 0x80)) {
        FrameOutcome::Scaled { board, variable, wire } => {
            assert_eq!(board, 0);
            assert_eq!(variable, 0);
            assert_eq!(wire, Value::Unsigned(0x80));
        },
        other => panic!("unexpected {:?}", other),
    }
    assert_eq!(app.lookup_sdo_value("BMS", 5), None);
}

#[test]
fn float_values_must_have_the_wire_width_to_be_sent() {
    let mut single = variable(6, "gain", ValueKind::Float, 32);
    single.wire_storage = ValueStorage { kind: ValueKind::Float, bits: 32 };
    let app = app_with(single);
    let half = Value::Float(sdodps::dbc::FloatBits::Single(0.5f32.to_bits()));
    let wide = Value::Float(sdodps::dbc::FloatBits::Double(0.5f64.to_bits()));
    assert!(app.set_request_fits("BMS", 6, half));
    assert!(!app.set_request_fits("BMS", 6, wide));
    let (_, payload) = app.set_request("BMS", 6, half).unwrap();
    assert_eq!(extract_bits(&payload, 24, 32), 0.5f32.to_bits() as u64);
}

#[test]
fn kept_log_lines_keep_their_timestamps() {
    let mut app = app();
    for i in 0..LOG_CAPACITY {
        app.push_status("t".to_string(), format!("{i}"));
    }
    let second = app.logs[1].timestamp;
    let last = app.logs[LOG_CAPACITY - 1].timestamp;
    wait_past(std::time::Instant::now());
    app.push_status("t".to_string(), "new".to_string());
    assert_eq!(app.logs.len(), LOG_CAPACITY);
    assert_eq!(app.logs[0].timestamp, second);
    assert_eq!(app.logs[LOG_CAPACITY - 2].timestamp, last);
    assert!(app.logs[LOG_CAPACITY - 1].timestamp > last);
    assert_eq!(app.logs[LOG_CAPACITY - 1].detail, "new");
}

#[test]
fn storing_a_value_keeps_the_others_arrival_time() {
    let mut app = app();
    app.store_sdo_value("MCU", 1, Value::Unsigned(1));
    app.store_sdo_value("MCU", 2, Value::Unsigned(2));
    let first = app.lookup_sdo_value("MCU", 1).unwrap().1;
    wait_past(std::time::Instant::now());
    app.store_sdo_value("MCU", 2, Value::Unsigned(3));
    assert_eq!(app.lookup_sdo_value("MCU", 1), Some((Value::Unsigned(1), first)));
    let (value, at) = app.lookup_sdo_value("MCU", 2).unwrap();
    assert_eq!(value, Value::Unsigned(3));
    assert!(at > first);
}

#[test]
fn the_log_pane_shows_the_newest_lines_first() {
    let mut app = app();
    assert_eq!(app.shown_log_positions(), vec![0]);
    for i in 0..20 {
        app.push_status("t".to_string(), format!("{i}"));
    }
    let shown = app.shown_log_positions();
    assert_eq!(shown.len(), LOG_LINES_SHOWN);
    assert_eq!(shown[0], app.logs.len() - 1);
    assert_eq!(app.logs[shown[0]].detail, "19");
    assert_eq!(app.logs[shown[LOG_LINES_SHOWN - 1]].detail, "8");
}

fn wait_past(start: std::time::Instant) {
    while std::time::Instant::now() <= start {}
}
