use postgit::config::{DiffEngineConfig, PostgresConfig};
use postgit::diff::{diff_invocation, diff_output};

fn endpoint(dbname: &str) -> PostgresConfig {
    PostgresConfig {
        user: "postgres".to_string(),
        dbname: dbname.to_string(),
        host: "localhost".to_string(),
        port: 5432,
    }
}

#[test]
fn default_tool_gets_both_urls_and_unsafe() {
    let engine = DiffEngineConfig { command: None, source: endpoint("s"), target: endpoint("t") };
    let inv = diff_invocation(&engine);
    assert_eq!("migra", inv.program);
    assert_eq!(
        vec![
            "postgresql://postgres@localhost:5432/s".to_string(),
            "postgresql://postgres@localhost:5432/t".to_string(),
            "--unsafe".to_string()
        ],
        inv.args
    );
}

#[test]
fn custom_command_runs_in_the_shell() {
    let engine = DiffEngineConfig {
        command: Some("echo \"$1 - $2\"".to_string()),
        source: endpoint("s"),
        target: endpoint("t"),
    };
    let inv = diff_invocation(&engine);
    assert_eq!("sh", inv.program);
    assert_eq!(
        vec![
            "-c".to_string(),
            "echo \"$1 - $2\"".to_string(),
            "postgit".to_string(),
            "postgresql://postgres@localhost:5432/s".to_string(),
            "postgresql://postgres@localhost:5432/t".to_string()
        ],
        inv.args
    );
}

#[test]
fn diagnostics_fail_the_diff() {
    assert_eq!(Err("boom\n".to_string()), diff_output("alter table x;", "boom\n"));
}

#[test]
fn output_is_trimmed() {
    assert_eq!(
        Ok("alter table \"my_app\".\"user\" alter column \"email\" set not null;".to_string()),
        diff_output("\n  alter table \"my_app\".\"user\" alter column \"email\" set not null;\n\n", "")
    );
    assert_eq!(Ok("a b".to_string()), diff_output("\u{3000}\ta b\u{a0}", ""));
    assert_eq!(Ok(String::new()), diff_output(" \n ", ""));
}
