//! The server's settings.
use vstd::prelude::*;
use crate::ext::parse_u64;
use crate::text::{decimal_u64, str_eq};

verus! {

/// The settings read from the configuration file; a missing one is `None`.
pub struct Config {
    pub password: Option<String>,
    pub port: Option<u16>,
    pub snapshot_interval: Option<u64>,
    pub aof_path: Option<String>,
}

impl Default for Config {
    /// The settings used when the file cannot be read or parsed.
    fn default() -> (r: Self)
        ensures
            r.password is None,
            r.port == Some(6379u16),
            r.snapshot_interval == Some(300u64),
            r.aof_path is Some && r.aof_path->0@ == "appendonly.aof"@,
    {
        Config {
            password: None,
            port: Some(6379),
            snapshot_interval: Some(300),
            aof_path: Some("appendonly.aof".to_owned()),
        }
    }
}

/// The port a setting names: a decimal number up to 65535; none for any
/// other text.
pub open spec fn port_setting(text: Seq<char>) -> Option<u16> {
    match decimal_u64(text) {
        Some(v) => if v <= 65535 { Some(v as u16) } else { None },
        None => None,
    }
}

impl Config {
    /// The settings with those given in the environment put over them:
    /// `REDISRS_PORT` (`port`), `REDISRS_SNAPSHOT_INTERVAL` (`interval`, in
    /// seconds) and `REDISRS_AOF_PATH` (`aof_path`). A setting that is not
    /// given, or a number that does not read as one in range, leaves the
    /// setting as it was.
    pub fn with_env(self, port: Option<String>, interval: Option<String>, aof_path: Option<String>) -> (r: Config)
        ensures
            r.password == self.password,
            r.port == (match port {
                Some(t) => match port_setting(t@) {
                    Some(p) => Some(p),
                    None => self.port,
                },
                None => self.port,
            }),
            r.snapshot_interval == (match interval {
                Some(t) => match decimal_u64(t@) {
                    Some(v) => Some(v),
                    None => self.snapshot_interval,
                },
                None => self.snapshot_interval,
            }),
            r.aof_path == (match aof_path {
                Some(p) => Some(p),
                None => self.aof_path,
            }),
    {
        let new_port = match &port {
            Some(t) => match parse_u64(t.as_str()) {
                Some(v) => if v <= 65535 { Some(v as u16) } else { self.port },
                None => self.port,
            },
            None => self.port,
        };
        let new_interval = match &interval {
            Some(t) => match parse_u64(t.as_str()) {
                Some(v) => Some(v),
                None => self.snapshot_interval,
            },
            None => self.snapshot_interval,
        };
        let new_path = match aof_path {
            Some(p) => Some(p),
            None => self.aof_path,
        };
        Config { password: self.password, port: new_port, snapshot_interval: new_interval, aof_path: new_path }
    }
}

/// How the key space is kept on disk.
pub enum Persistence {
    /// Not at all.
    Off,
    /// In snapshots, taken at the snapshot interval.
    Rdb,
    /// In the append-only file, a record for each command that changes it.
    Aof,
}

/// The mode that a `REDISRS_PERSISTENCE` setting names: `none`, `rdb` or
/// `aof`; none for any other text.
pub open spec fn mode_named(text: Seq<char>) -> Option<Persistence> {
    if text == "none"@ {
        Some(Persistence::Off)
    } else if text == "rdb"@ {
        Some(Persistence::Rdb)
    } else if text == "aof"@ {
        Some(Persistence::Aof)
    } else {
        None
    }
}

/// The persistence mode a setting names; off when it is not given.
pub fn persistence_mode(setting: Option<String>) -> (r: Option<Persistence>)
    ensures
        r == (match setting {
            Some(t) => mode_named(t@),
            None => Some(Persistence::Off),
        }),
{
    match setting {
        None => Some(Persistence::Off),
        Some(t) => if str_eq(t.as_str(), "none") {
            Some(Persistence::Off)
        } else if str_eq(t.as_str(), "rdb") {
            Some(Persistence::Rdb)
        } else if str_eq(t.as_str(), "aof") {
            Some(Persistence::Aof)
        } else {
            None
        },
    }
}

} // verus!
