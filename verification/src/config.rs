//! The application's configuration (`config.toml`): its sections, and the
//! values that apply when the file or a setting is missing.

use vstd::prelude::*;

verus! {

/// The `[server]` section of the configuration file.
#[derive(Debug)]
pub struct ServerConfig {
    pub host: Option<String>,
    pub port: Option<u16>,
}

/// The `[database]` section of the configuration file: the connection string
/// and the directory that saved reports go to.
#[derive(Debug)]
pub struct DbConfig {
    pub connection_string: Option<String>,
    pub output_dir: Option<String>,
}

/// The configuration file, by sections.
#[derive(Debug)]
pub struct NewConfig {
    pub server: Option<ServerConfig>,
    pub database: Option<DbConfig>,
}

/// The configuration the application runs with.
#[derive(Debug)]
pub struct AppConfig {
    pub host: String,
    pub port: u16,
    pub connection_string: String,
    pub output_dir: String,
}

/// A configuration as (host, port, connection string, output directory).
pub open spec fn config_values(c: AppConfig) -> (Seq<char>, u16, Seq<char>, Seq<char>) {
    (c.host@, c.port, c.connection_string@, c.output_dir@)
}

/// The configuration without a file: `127.0.0.1:8080`, no connection string,
/// output to `payables_output`.
pub open spec fn default_values() -> (Seq<char>, u16, Seq<char>, Seq<char>) {
    ("127.0.0.1"@, 8080, Seq::empty(), "payables_output"@)
}

pub open spec fn text_or_default(o: Option<String>, default: Seq<char>) -> Seq<char> {
    match o {
        Some(s) => s@,
        None => default,
    }
}

/// The configuration a file gives: each missing section or setting takes its
/// default.
pub open spec fn file_values(f: NewConfig) -> (Seq<char>, u16, Seq<char>, Seq<char>) {
    let (host, port) = match f.server {
        Some(s) => (
            text_or_default(s.host, "127.0.0.1"@),
            match s.port {
                Some(p) => p,
                None => 8080u16,
            },
        ),
        None => ("127.0.0.1"@, 8080u16),
    };
    let (connection_string, output_dir) = match f.database {
        Some(d) => (
            text_or_default(d.connection_string, Seq::empty()),
            text_or_default(d.output_dir, "payables_output"@),
        ),
        None => (Seq::empty(), "payables_output"@),
    };
    (host, port, connection_string, output_dir)
}

fn text_or(o: Option<String>, default: &str) -> (r: String)
    ensures
        r@ == text_or_default(o, default@),
{
    match o {
        Some(s) => s,
        None => default.to_owned(),
    }
}

impl AppConfig {
    /// The configuration used when there is no configuration file.
    pub fn defaults() -> (r: AppConfig)
        ensures
            config_values(r) == default_values(),
    {
        AppConfig {
            host: String::from_str("127.0.0.1"),
            port: 8080,
            connection_string: String::new(),
            output_dir: String::from_str("payables_output"),
        }
    }

    /// The configuration given by a configuration file.
    pub fn from_file(file: NewConfig) -> (r: AppConfig)
        ensures
            config_values(r) == file_values(file),
    {
        let (host, port) = match file.server {
            Some(s) => (
                text_or(s.host, "127.0.0.1"),
                match s.port {
                    Some(p) => p,
                    None => 8080,
                },
            ),
            None => (String::from_str("127.0.0.1"), 8080),
        };
        let (connection_string, output_dir) = match file.database {
            Some(d) => (
                text_or(d.connection_string, ""),
                text_or(d.output_dir, "payables_output"),
            ),
            None => (String::new(), String::from_str("payables_output")),
        };
        proof {
            reveal_strlit("");
        }
        AppConfig { host, port, connection_string, output_dir }
    }

    /// Whether a connection string is configured; the application does not
    /// start without one.
    pub fn has_connection_string(&self) -> (r: bool)
        ensures
            r == (self.connection_string@.len() > 0),
    {
        !self.connection_string.as_str().is_empty()
    }
}

/// A configuration file without sections gives the same configuration as no
/// file at all.
pub proof fn empty_file_gives_defaults()
    ensures
        file_values(NewConfig { server: None, database: None }) == default_values(),
{
}

/// A setting missing from the file takes its default, whether or not its
/// section is present: host `127.0.0.1`, port 8080, no connection string,
/// output to `payables_output`.
pub proof fn missing_settings_take_defaults(f: NewConfig)
    ensures
        (match f.server {
            Some(s) => s.host,
            None => None,
        }) is None ==> file_values(f).0 == "127.0.0.1"@,
        (match f.server {
            Some(s) => s.port,
            None => None,
        }) is None ==> file_values(f).1 == 8080,
        (match f.database {
            Some(d) => d.connection_string,
            None => None,
        }) is None ==> file_values(f).2 == Seq::<char>::empty(),
        (match f.database {
            Some(d) => d.output_dir,
            None => None,
        }) is None ==> file_values(f).3 == "payables_output"@,
{
}

/// A file's setting, when present, is the one used.
pub proof fn present_settings_are_used(f: NewConfig)
    ensures
        f.server matches Some(s) ==> (s.host matches Some(h) ==> file_values(f).0 == h@) && (
        s.port matches Some(p) ==> file_values(f).1 == p),
        f.database matches Some(d) ==> (d.connection_string matches Some(c) ==> file_values(f).2
            == c@) && (d.output_dir matches Some(o) ==> file_values(f).3 == o@),
{
}

} // verus!
