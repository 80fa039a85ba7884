//! Run-time configuration: command-line overrides over the configuration
//! file over built-in defaults.
use vstd::prelude::*;

use crate::text::{chars_of, push_str, string_of, trim, trim_bounds};

verus! {

/// Configuration file used when none is named.
pub const DEFAULT_CONFIG_PATH: &'static str = "sdodps_gui.toml";

/// DBC file used when none is named.
pub const DEFAULT_DBC_PATH: &'static str = "dbc/can2.dbc";

/// SocketCAN interface used when none is named.
pub const DEFAULT_SOCKETCAN: &'static str = "can0";

/// Where a `dbcc` built next to the DBC is looked for.
pub const DEFAULT_DBCC_PATH: &'static str = "dbc/dbcc/dbcc";

/// Milliseconds to wait for an answer on the bus when none is named.
pub const DEFAULT_TIMEOUT_MS: u64 = 1000;

/// Overrides given on the command line.
#[derive(Clone, Debug)]
pub struct CliArgs {
    pub config: Option<String>,
    pub dbc: Option<String>,
    pub can: Option<String>,
    pub dbcc: Option<String>,
    pub timeout_ms: Option<u64>,
}

/// The contents of the configuration file.
#[derive(Clone, Debug)]
pub struct FileConfig {
    pub dbc_path: Option<String>,
    pub socketcan: Option<String>,
    pub dbcc_path: Option<String>,
}

/// The configuration in effect.
#[derive(Clone, Debug)]
pub struct RuntimeConfig {
    pub config_path: String,
    pub dbc_path: String,
    pub socketcan: String,
    pub dbcc_path: Option<String>,
    pub timeout_ms: u64,
}

/// The text of an optional string.
pub open spec fn opt_view(s: Option<String>) -> Option<Seq<char>> {
    match s {
        Some(t) => Some(t@),
        None => None,
    }
}

/// The first of two optional texts that is present.
pub open spec fn first_some(a: Option<Seq<char>>, b: Option<Seq<char>>) -> Option<Seq<char>> {
    if a is Some {
        a
    } else {
        b
    }
}

/// The text of an optional text, or a default.
pub open spec fn or_default(a: Option<Seq<char>>, default: Seq<char>) -> Seq<char> {
    match a {
        Some(t) => t,
        None => default,
    }
}

fn first_string(a: Option<String>, b: Option<String>) -> (r: Option<String>)
    ensures
        opt_view(r) == first_some(opt_view(a), opt_view(b)),
{
    match a {
        Some(a) => Some(a),
        None => b,
    }
}

fn string_or(a: Option<String>, default: &str) -> (r: String)
    ensures
        r@ == or_default(opt_view(a), default@),
{
    match a {
        Some(a) => a,
        None => default.to_string(),
    }
}

impl FileConfig {
    /// The configuration file written when there is none: the default DBC
    /// and interface, and `dbcc` when one was found.
    pub fn with_defaults(dbcc_path: Option<String>) -> (config: FileConfig)
        ensures
            opt_view(config.dbc_path) == Some(DEFAULT_DBC_PATH@),
            opt_view(config.socketcan) == Some(DEFAULT_SOCKETCAN@),
            opt_view(config.dbcc_path) == opt_view(dbcc_path),
    {
        FileConfig {
            dbc_path: Some(DEFAULT_DBC_PATH.to_string()),
            socketcan: Some(DEFAULT_SOCKETCAN.to_string()),
            dbcc_path,
        }
    }
}

/// The configuration file to read: the one named, else the default.
pub fn config_path(args: &CliArgs) -> (path: String)
    ensures
        path@ == or_default(opt_view(args.config), DEFAULT_CONFIG_PATH@),
{
    string_or(args.config.clone(), DEFAULT_CONFIG_PATH)
}

impl RuntimeConfig {
    /// Each setting from the command line, else from the file, else its
    /// default (for `dbcc`: the one found next to the DBC, if any).
    pub fn load(args: CliArgs, file: FileConfig, found_dbcc: Option<String>) -> (config: RuntimeConfig)
        ensures
            config.config_path@ == or_default(opt_view(args.config), DEFAULT_CONFIG_PATH@),
            config.dbc_path@ == or_default(
                first_some(opt_view(args.dbc), opt_view(file.dbc_path)),
                DEFAULT_DBC_PATH@,
            ),
            config.socketcan@ == or_default(
                first_some(opt_view(args.can), opt_view(file.socketcan)),
                DEFAULT_SOCKETCAN@,
            ),
            opt_view(config.dbcc_path) == first_some(
                first_some(opt_view(args.dbcc), opt_view(file.dbcc_path)),
                opt_view(found_dbcc),
            ),
            config.timeout_ms == match args.timeout_ms {
                Some(t) => t,
                None => DEFAULT_TIMEOUT_MS,
            },
    {
        let config_path = string_or(args.config, DEFAULT_CONFIG_PATH);
        RuntimeConfig {
            dbc_path: string_or(first_string(args.dbc, file.dbc_path), DEFAULT_DBC_PATH),
            socketcan: string_or(first_string(args.can, file.socketcan), DEFAULT_SOCKETCAN),
            dbcc_path: first_string(first_string(args.dbcc, file.dbcc_path), found_dbcc),
            timeout_ms: match args.timeout_ms {
                Some(t) => t,
                None => DEFAULT_TIMEOUT_MS,
            },
            config_path,
        }
    }
}

/// The `dbcc` code generator as run at start: where it is, where it wrote,
/// the bindings made from the header it wrote, and a status line.
#[derive(Clone, Debug)]
pub struct DbccRuntime {
    pub executable: Option<String>,
    pub generated_dir: Option<String>,
    pub bindings_path: Option<String>,
    pub status: String,
}

impl DbccRuntime {
    /// No `dbcc` was found.
    pub fn not_found() -> (runtime: DbccRuntime)
        ensures
            runtime.executable is None,
            runtime.generated_dir is None,
            runtime.bindings_path is None,
            runtime.status@ == "dbcc non trovato: parser Rust attivo, bindgen runtime disabilitato"@,
    {
        DbccRuntime {
            executable: None,
            generated_dir: None,
            bindings_path: None,
            status: "dbcc non trovato: parser Rust attivo, bindgen runtime disabilitato".to_string(),
        }
    }

    /// `dbcc` ran into `generated_dir` and failed, writing `stderr`.
    pub fn failed(executable: String, generated_dir: String, stderr: &str) -> (runtime: DbccRuntime)
        ensures
            opt_view(runtime.executable) == Some(executable@),
            opt_view(runtime.generated_dir) == Some(generated_dir@),
            runtime.bindings_path is None,
            runtime.status@ == "dbcc fallito: "@ + trim(stderr@),
    {
        let chars = chars_of(stderr);
        let (start, end) = trim_bounds(&chars, 0, chars.len());
        assert(chars@.subrange(0, chars@.len() as int) == chars@);
        let trimmed = string_of(&chars, start, end);
        let mut status = "dbcc fallito: ".to_string();
        push_str(&mut status, trimmed.as_str());
        DbccRuntime {
            executable: Some(executable),
            generated_dir: Some(generated_dir),
            bindings_path: None,
            status,
        }
    }

    /// `dbcc` ran into `generated_dir`; `header` is the header it wrote, if
    /// one was found, and `bindings` the bindings made from it.
    pub fn ran(executable: String, generated_dir: String, header: Option<String>, bindings: Option<String>) -> (runtime: DbccRuntime)
        ensures
            opt_view(runtime.executable) == Some(executable@),
            opt_view(runtime.generated_dir) == Some(generated_dir@),
            opt_view(runtime.bindings_path) == opt_view(bindings),
            runtime.status@ == match (header, bindings) {
                (Some(h), Some(b)) => "dbcc pronto: header "@ + h@ + " -> bindings "@ + b@,
                _ => "dbcc eseguito in "@ + generated_dir@ + ", ma nessun header .h rilevato per bindgen"@,
            },
    {
        let status = match (&header, &bindings) {
            (Some(h), Some(b)) => {
                let mut status = "dbcc pronto: header ".to_string();
                push_str(&mut status, h.as_str());
                push_str(&mut status, " -> bindings ");
                push_str(&mut status, b.as_str());
                status
            },
            _ => {
                let mut status = "dbcc eseguito in ".to_string();
                push_str(&mut status, generated_dir.as_str());
                push_str(&mut status, ", ma nessun header .h rilevato per bindgen");
                status
            },
        };
        DbccRuntime {
            executable: Some(executable),
            generated_dir: Some(generated_dir),
            bindings_path: bindings,
            status,
        }
    }
}

} // verus!
