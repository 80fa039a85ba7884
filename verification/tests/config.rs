use sdodps::config::{config_path, CliArgs, DbccRuntime, FileConfig, RuntimeConfig, DEFAULT_TIMEOUT_MS};

fn args() -> CliArgs {
    CliArgs { config: None, dbc: None, can: None, dbcc: None, timeout_ms: None }
}

#[test]
fn defaults_fill_what_nobody_names() {
    let file = FileConfig { dbc_path: None, socketcan: None, dbcc_path: None };
    let config = RuntimeConfig::load(args(), file, None);
    assert_eq!(config.config_path, "sdodps_gui.toml");
    assert_eq!(config.dbc_path, "dbc/can2.dbc");
    assert_eq!(config.socketcan, "can0");
    assert_eq!(config.dbcc_path, None);
    assert_eq!(config.timeout_ms, DEFAULT_TIMEOUT_MS);
}

#[test]
fn command_line_beats_file_beats_default() {
    let file = FileConfig {
        dbc_path: Some("file.dbc".to_string()),
        socketcan: Some("vcan1".to_string()),
        dbcc_path: Some("/opt/dbcc".to_string()),
    };
    let mut cli = args();
    cli.can = Some("vcan9".to_string());
    cli.timeout_ms = Some(250);
    let config = RuntimeConfig::load(cli, file, Some("found".to_string()));
    assert_eq!(config.dbc_path, "file.dbc");
    assert_eq!(config.socketcan, "vcan9");
    assert_eq!(config.dbcc_path, Some("/opt/dbcc".to_string()));
    assert_eq!(config.timeout_ms, 250);
}

#[test]
fn found_dbcc_is_the_last_resort() {
    let file = FileConfig { dbc_path: None, socketcan: None, dbcc_path: None };
    let config = RuntimeConfig::load(args(), file, Some("dbc/dbcc/dbcc".to_string()));
    assert_eq!(config.dbcc_path, Some("dbc/dbcc/dbcc".to_string()));
}

#[test]
fn config_file_is_named_or_default() {
    assert_eq!(config_path(&args()), "sdodps_gui.toml");
    let mut cli = args();
    cli.config = Some("other.toml".to_string());
    assert_eq!(config_path(&cli), "other.toml");
}

#[test]
fn default_file_config() {
    let file = FileConfig::with_defaults(None);
    assert_eq!(file.dbc_path, Some("dbc/can2.dbc".to_string()));
    assert_eq!(file.socketcan, Some("can0".to_string()));
    assert_eq!(file.dbcc_path, None);
}

#[test]
fn dbcc_status_lines() {
    let missing = DbccRuntime::not_found();
    assert_eq!(missing.status, "dbcc non trovato: parser Rust attivo, bindgen runtime disabilitato");
    assert!(missing.executable.is_none());
    let failed = DbccRuntime::failed("dbcc".to_string(), "/tmp/x".to_string(), "  boom\n");
    assert_eq!(failed.status, "dbcc fallito: boom");
    let ready = DbccRuntime::ran(
        "dbcc".to_string(),
        "/tmp/x".to_string(),
        Some("/tmp/x/can2.h".to_string()),
        Some("/tmp/x/bindings.rs".to_string()),
    );
    assert_eq!(ready.status, "dbcc pronto: header /tmp/x/can2.h -> bindings /tmp/x/bindings.rs");
    assert_eq!(ready.bindings_path, Some("/tmp/x/bindings.rs".to_string()));
    let headless = DbccRuntime::ran("dbcc".to_string(), "/tmp/x".to_string(), None, None);
    assert_eq!(headless.status, "dbcc eseguito in /tmp/x, ma nessun header .h rilevato per bindgen");
}
