use postgit::config::{
    default_db, default_port, Config, DiffEngineConfig, PostgresConfig, WatchConfig,
};
use postgit::db::{create_database_statement, drop_database_statement};

fn endpoint(user: &str, dbname: &str, host: &str, port: u16) -> PostgresConfig {
    PostgresConfig {
        user: user.to_string(),
        dbname: dbname.to_string(),
        host: host.to_string(),
        port,
    }
}

fn default_endpoint() -> PostgresConfig {
    PostgresConfig::from_env_values(None, None, None, None)
}

#[test]
fn it_loads_the_default_config() {
    let read = Config {
        diff_engine: DiffEngineConfig {
            command: None,
            source: default_endpoint(),
            target: default_endpoint(),
        },
        target: default_endpoint(),
        watch: WatchConfig { recreate_db_on_fail: false },
    };
    let config = Config::build(read, None, None);

    assert_eq!(
        Config {
            diff_engine: DiffEngineConfig {
                command: None,
                source: endpoint("postgres", "postgit_diff_source", "localhost", 5432),
                target: endpoint("postgres", "postgit_diff_target", "localhost", 5432),
            },
            target: endpoint("postgres", "postgres", "localhost", 5432),
            watch: WatchConfig { recreate_db_on_fail: false },
        },
        config
    );
}

#[test]
fn it_loads_the_config_from_file() {
    let read = Config {
        diff_engine: DiffEngineConfig {
            command: Some("my_command".to_string()),
            source: endpoint("diff_source_user", "diff_source_db", "diff_source_host", 1234),
            target: endpoint("diff_target_user", "diff_target_db", "diff_target_host", 4567),
        },
        target: endpoint("target_user", "target_db", "target_host", 3214),
        watch: WatchConfig { recreate_db_on_fail: false },
    };
    let config = Config::build(read, None, None);

    assert_eq!(
        Config {
            diff_engine: DiffEngineConfig {
                command: Some("my_command".to_string()),
                source: endpoint("diff_source_user", "diff_source_db", "diff_source_host", 1234),
                target: endpoint("diff_target_user", "diff_target_db", "diff_target_host", 4567),
            },
            target: endpoint("target_user", "target_db", "target_host", 3214),
            watch: WatchConfig { recreate_db_on_fail: false },
        },
        config
    );
}

#[test]
fn build_renames_scratch_databases_left_at_the_environment_default() {
    let read = Config {
        diff_engine: DiffEngineConfig {
            command: None,
            source: endpoint("u", "app", "h", 1),
            target: endpoint("u", "other", "h", 1),
        },
        target: endpoint("u", "app", "h", 1),
        watch: WatchConfig { recreate_db_on_fail: true },
    };
    let config = Config::build(read, Some("app".to_string()), None);
    assert_eq!("postgit_diff_source", config.diff_engine.source.dbname);
    assert_eq!("other", config.diff_engine.target.dbname);
    assert_eq!("app", config.target.dbname);
}

#[test]
fn environment_values_fill_the_defaults() {
    let c = PostgresConfig::from_env_values(
        Some("alice".to_string()),
        None,
        Some("db.example".to_string()),
        Some("6543".to_string()),
    );
    assert_eq!(endpoint("alice", "alice", "db.example", 6543), c);
    assert_eq!("shop", default_db(Some("shop".to_string()), Some("alice".to_string())));
}

#[test]
fn port_reads_decimal_numbers_only() {
    assert_eq!(6543, default_port(Some("6543".to_string())));
    assert_eq!(80, default_port(Some("+80".to_string())));
    assert_eq!(5432, default_port(Some("70000".to_string())));
    assert_eq!(5432, default_port(Some(" 80".to_string())));
    assert_eq!(5432, default_port(Some("".to_string())));
    assert_eq!(5432, default_port(None));
}

#[test]
fn url_names_user_host_port_and_database() {
    let c = endpoint("postgres", "postgit_diff_source", "localhost", 5432);
    assert_eq!("postgresql://postgres@localhost:5432/postgit_diff_source", c.to_url());
    assert_eq!("postgresql://u@h:7/d", endpoint("u", "d", "h", 7).to_url());
}

#[test]
fn maintenance_endpoint_uses_the_administrative_database() {
    let c = endpoint("u", "scratch", "h", 9).maintenance();
    assert_eq!(endpoint("u", "postgres", "h", 9), c);
}

#[test]
fn watch_engine_reverses_the_roles() {
    let config = Config {
        diff_engine: DiffEngineConfig {
            command: Some("cmd".to_string()),
            source: endpoint("u", "scratch", "h", 1),
            target: endpoint("u", "other", "h", 1),
        },
        target: endpoint("u", "live", "h", 2),
        watch: WatchConfig { recreate_db_on_fail: false },
    };
    let engine = DiffEngineConfig::for_watch(&config);
    assert_eq!(Some("cmd".to_string()), engine.command);
    assert_eq!(endpoint("u", "live", "h", 2), engine.source);
    assert_eq!(endpoint("u", "scratch", "h", 1), engine.target);
}

#[test]
fn database_statements() {
    assert_eq!("create database postgit_diff_source", create_database_statement("postgit_diff_source"));
    assert_eq!(
        "drop database if exists postgit_diff_target (force)",
        drop_database_statement("postgit_diff_target")
    );
}
