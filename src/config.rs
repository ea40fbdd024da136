//! Database endpoints and the configuration that names them.
use vstd::prelude::*;

use crate::text::{decimal, decimal_text, parse_u16, parsed_u16};

verus! {

/// One database endpoint: who connects, to which server, to which database.
#[derive(Clone, PartialEq, Eq, Debug)]
pub struct PostgresConfig {
    pub user: String,
    pub dbname: String,
    pub host: String,
    pub port: u16,
}

/// `postgresql://user@host:port/dbname`.
pub open spec fn url_of(c: PostgresConfig) -> Seq<char> {
    "postgresql://"@ + c.user@ + "@"@ + c.host@ + ":"@ + decimal(c.port as nat) + "/"@
        + c.dbname@
}

impl PostgresConfig {
    /// The connection URL of this endpoint.
    pub fn to_url(&self) -> (r: String)
        ensures
            r@ == url_of(*self),
    {
        let mut url = String::from_str("postgresql://");
        url.append(self.user.as_str());
        url.append("@");
        url.append(self.host.as_str());
        url.append(":");
        let port = decimal_text(self.port);
        url.append(port.as_str());
        url.append("/");
        url.append(self.dbname.as_str());
        url
    }
}


/// The user when none is configured: `PGUSER`, else `postgres`.
pub open spec fn default_user_of(pguser: Option<String>) -> Seq<char> {
    match pguser {
        Some(u) => u@,
        None => "postgres"@,
    }
}

/// The database when none is configured: `PGDATABASE`, else the default user.
pub open spec fn default_db_of(pgdatabase: Option<String>, pguser: Option<String>) -> Seq<char> {
    match pgdatabase {
        Some(d) => d@,
        None => default_user_of(pguser),
    }
}

/// The host when none is configured: `PGHOST`, else `localhost`.
pub open spec fn default_host_of(pghost: Option<String>) -> Seq<char> {
    match pghost {
        Some(h) => h@,
        None => "localhost"@,
    }
}

/// The port when none is configured: `PGPORT` when it reads as a port
/// number, else 5432.
pub open spec fn default_port_of(pgport: Option<String>) -> u16 {
    match pgport {
        Some(p) => match parsed_u16(p@) {
            Some(n) => n,
            None => 5432,
        },
        None => 5432,
    }
}

/// The user when none is configured, from the value of `PGUSER`.
pub fn default_user(pguser: Option<String>) -> (r: String)
    ensures
        r@ == default_user_of(pguser),
{
    match pguser {
        Some(u) => u,
        None => String::from_str("postgres"),
    }
}

/// The database when none is configured, from the values of `PGDATABASE` and
/// `PGUSER`.
pub fn default_db(pgdatabase: Option<String>, pguser: Option<String>) -> (r: String)
    ensures
        r@ == default_db_of(pgdatabase, pguser),
{
    match pgdatabase {
        Some(d) => d,
        None => default_user(pguser),
    }
}

/// The host when none is configured, from the value of `PGHOST`.
pub fn default_host(pghost: Option<String>) -> (r: String)
    ensures
        r@ == default_host_of(pghost),
{
    match pghost {
        Some(h) => h,
        None => String::from_str("localhost"),
    }
}

/// The port when none is configured, from the value of `PGPORT`.
pub fn default_port(pgport: Option<String>) -> (r: u16)
    ensures
        r == default_port_of(pgport),
{
    match pgport {
        Some(p) => match parse_u16(p.as_str()) {
            Some(n) => n,
            None => 5432,
        },
        None => 5432,
    }
}

impl PostgresConfig {
    /// The endpoint that an empty configuration names, from the values of
    /// `PGUSER`, `PGDATABASE`, `PGHOST` and `PGPORT`.
    pub fn from_env_values(
        pguser: Option<String>,
        pgdatabase: Option<String>,
        pghost: Option<String>,
        pgport: Option<String>,
    ) -> (r: PostgresConfig)
        ensures
            r.user@ == default_user_of(pguser),
            r.dbname@ == default_db_of(pgdatabase, pguser),
            r.host@ == default_host_of(pghost),
            r.port == default_port_of(pgport),
    {
        let user2 = match &pguser {
            Some(u) => Some(u.clone()),
            None => None,
        };
        PostgresConfig {
            user: default_user(pguser),
            dbname: default_db(pgdatabase, user2),
            host: default_host(pghost),
            port: default_port(pgport),
        }
    }

    /// The same server and user, with the server's administrative database:
    /// where databases are created and dropped.
    pub fn maintenance(&self) -> (r: PostgresConfig)
        ensures
            r.user == self.user,
            r.host == self.host,
            r.port == self.port,
            r.dbname@ == "postgres"@,
    {
        PostgresConfig {
            user: self.user.clone(),
            dbname: String::from_str("postgres"),
            host: self.host.clone(),
            port: self.port,
        }
    }

    /// A copy of this endpoint.
    pub fn duplicate(&self) -> (r: PostgresConfig)
        ensures
            r == *self,
    {
        PostgresConfig {
            user: self.user.clone(),
            dbname: self.dbname.clone(),
            host: self.host.clone(),
            port: self.port,
        }
    }
}

/// The pair of scratch databases that a diff compares, and the command that
/// compares them (the default diff tool when there is none).
#[derive(Clone, PartialEq, Eq, Debug)]
pub struct DiffEngineConfig {
    pub command: Option<String>,
    pub source: PostgresConfig,
    pub target: PostgresConfig,
}

/// What the watch loop does when a change cannot be applied.
#[derive(Clone, PartialEq, Eq, Debug)]
pub struct WatchConfig {
    pub recreate_db_on_fail: bool,
}

/// The whole configuration: the diff engine, the database that pushes and
/// the watch loop change, and the watch policy.
#[derive(Clone, PartialEq, Eq, Debug)]
pub struct Config {
    pub diff_engine: DiffEngineConfig,
    pub target: PostgresConfig,
    pub watch: WatchConfig,
}

fn copy_command(c: &Option<String>) -> (r: Option<String>)
    ensures
        r == *c,
{
    match c {
        Some(s) => Some(s.clone()),
        None => None,
    }
}

impl DiffEngineConfig {
    /// The diff engine that the watch loop uses: the same command, the live
    /// target database as the current state and the configured source
    /// scratch database as the desired one.
    pub fn for_watch(config: &Config) -> (r: DiffEngineConfig)
        ensures
            r.command == config.diff_engine.command,
            r.source == config.target,
            r.target == config.diff_engine.source,
    {
        DiffEngineConfig {
            command: copy_command(&config.diff_engine.command),
            source: config.target.duplicate(),
            target: config.diff_engine.source.duplicate(),
        }
    }
}

impl Config {
    /// Completes a configuration as read: a scratch database left at the
    /// default database name gets a name of its own, `postgit_diff_source` or
    /// `postgit_diff_target`. `pgdatabase` and `pguser` are the values of
    /// `PGDATABASE` and `PGUSER`, which decide the default name.
    pub fn build(read: Config, pgdatabase: Option<String>, pguser: Option<String>) -> (r: Config)
        ensures
            r.target == read.target,
            r.watch == read.watch,
            r.diff_engine.command == read.diff_engine.command,
            r.diff_engine.source.user == read.diff_engine.source.user,
            r.diff_engine.source.host == read.diff_engine.source.host,
            r.diff_engine.source.port == read.diff_engine.source.port,
            r.diff_engine.target.user == read.diff_engine.target.user,
            r.diff_engine.target.host == read.diff_engine.target.host,
            r.diff_engine.target.port == read.diff_engine.target.port,
            r.diff_engine.source.dbname@ == if read.diff_engine.source.dbname@ == default_db_of(
                pgdatabase,
                pguser,
            ) {
                "postgit_diff_source"@
            } else {
                read.diff_engine.source.dbname@
            },
            r.diff_engine.target.dbname@ == if read.diff_engine.target.dbname@ == default_db_of(
                pgdatabase,
                pguser,
            ) {
                "postgit_diff_target"@
            } else {
                read.diff_engine.target.dbname@
            },
    {
        let default_name = default_db(pgdatabase, pguser);
        let mut config = read;
        if config.diff_engine.source.dbname == default_name {
            config.diff_engine.source.dbname = String::from_str("postgit_diff_source");
        }
        if config.diff_engine.target.dbname == default_name {
            config.diff_engine.target.dbname = String::from_str("postgit_diff_target");
        }
        config
    }
}

} // verus!
