use postgit::cli::DiffArgs;
use postgit::config::{Config, DiffEngineConfig, PostgresConfig, WatchConfig};
use postgit::pipeline::{
    apply_diff, deploy_changes, get_diff_string, Action, DeployRun, DeployStage, DiffRun, Event,
    Stage,
};

fn endpoint(dbname: &str) -> PostgresConfig {
    PostgresConfig {
        user: "postgres".to_string(),
        dbname: dbname.to_string(),
        host: "localhost".to_string(),
        port: 5432,
    }
}

fn config(recreate: bool) -> Config {
    Config {
        diff_engine: DiffEngineConfig {
            command: None,
            source: endpoint("postgit_diff_source"),
            target: endpoint("postgit_diff_target"),
        },
        target: endpoint("app"),
        watch: WatchConfig { recreate_db_on_fail: recreate },
    }
}

fn args(from: Option<&str>) -> DiffArgs {
    DiffArgs {
        repo_path: ".".to_string(),
        from: from.map(|f| f.to_string()),
        to: "R2".to_string(),
        source_path: None,
        path: "schema.sql".to_string(),
    }
}

/// A short name for an action, to compare runs step by step.
fn name(a: &Action) -> String {
    match a {
        Action::ResolveSchema { revision, path } => format!("resolve {} {}", revision, path),
        Action::DropDatabase(c) => format!("drop {}", c.dbname),
        Action::CreateDatabase(c) => format!("create {}", c.dbname),
        Action::RunScript { script, database } => format!("run [{}] in {}", script, database.dbname),
        Action::RunDiff(e) => format!("diff {} -> {}", e.source.dbname, e.target.dbname),
        Action::Finish(Ok(s)) => format!("ok [{}]", s),
        Action::Finish(Err(m)) => format!("error [{}]", m),
    }
}

const ALTER: &str = "alter table \"my_app\".\"user\" alter column \"email\" set not null;";

fn answer(a: &Action) -> Event {
    match a {
        Action::ResolveSchema { revision, .. } if revision == "R1" => {
            Event::Text("create table my_app.user(email text);".to_string())
        }
        Action::ResolveSchema { .. } => {
            Event::Text("create table my_app.user(email text not null);".to_string())
        }
        Action::RunDiff(_) => Event::Text(ALTER.to_string()),
        _ => Event::Done,
    }
}

#[test]
fn diff_run_stages_both_schemas_and_cleans_up() {
    let a = args(Some("R1"));
    let c = config(false);
    let mut run = DiffRun::new();
    let mut event = Event::Done;
    let mut seen = Vec::new();
    loop {
        let (next, action) = get_diff_string(&a, &c, run, event);
        seen.push(name(&action));
        if let Action::Finish(_) = action {
            break;
        }
        event = answer(&action);
        run = next;
    }
    assert_eq!(
        vec![
            "resolve R1 schema.sql".to_string(),
            "resolve R2 schema.sql".to_string(),
            "drop postgit_diff_source".to_string(),
            "drop postgit_diff_target".to_string(),
            "create postgit_diff_source".to_string(),
            "create postgit_diff_target".to_string(),
            "run [create table my_app.user(email text);] in postgit_diff_source".to_string(),
            "run [create table my_app.user(email text not null);] in postgit_diff_target".to_string(),
            "diff postgit_diff_source -> postgit_diff_target".to_string(),
            "drop postgit_diff_source".to_string(),
            "drop postgit_diff_target".to_string(),
            format!("ok [{}]", ALTER),
        ],
        seen
    );
}

#[test]
fn diff_failure_still_drops_both_scratch_databases() {
    let a = args(Some("R1"));
    let c = config(false);
    let mut run = DiffRun::new();
    let mut event = Event::Done;
    let mut seen = Vec::new();
    loop {
        let (next, action) = get_diff_string(&a, &c, run, event);
        seen.push(name(&action));
        if let Action::Finish(_) = action {
            break;
        }
        event = match action {
            Action::RunDiff(_) => Event::Failed("no such tool".to_string()),
            _ => answer(&action),
        };
        run = next;
    }
    let n = seen.len();
    assert_eq!("drop postgit_diff_source", seen[n - 3]);
    assert_eq!("drop postgit_diff_target", seen[n - 2]);
    assert_eq!("error [no such tool]", seen[n - 1]);
}

#[test]
fn resolution_failure_finishes_at_once() {
    let a = args(Some("R1"));
    let c = config(false);
    let (run, _) = get_diff_string(&a, &c, DiffRun::new(), Event::Done);
    let (run, action) = get_diff_string(&a, &c, run, Event::Failed("no commit".to_string()));
    assert_eq!("error [no commit]", name(&action));
    assert_eq!(Stage::Finished, run.stage);
}

fn push(a: &DiffArgs, c: &Config, fail_applies: usize) -> Vec<String> {
    let mut run = DiffRun::new();
    let mut event = Event::Done;
    let mut seen = Vec::new();
    let mut failures = 0;
    loop {
        let (next, action) = apply_diff(a, c, run, event);
        seen.push(name(&action));
        if let Action::Finish(_) = action {
            break;
        }
        event = match &action {
            Action::RunScript { database, .. } if database.dbname == "app" && failures < fail_applies => {
                failures += 1;
                Event::Failed("constraint violated".to_string())
            }
            _ => answer(&action),
        };
        run = next;
    }
    seen
}

#[test]
fn push_of_an_initial_commit_starts_from_an_empty_source() {
    let seen = push(&args(None), &config(false), 0);
    assert_eq!("resolve R2 schema.sql", seen[0]);
    assert!(!seen.iter().any(|s| s.ends_with("in postgit_diff_source")));
    let n = seen.len();
    assert_eq!(format!("run [{}] in app", ALTER), seen[n - 2]);
    assert_eq!(format!("ok [{}]", ALTER), seen[n - 1]);
}

#[test]
fn push_failure_without_recreate_is_reported() {
    let seen = push(&args(Some("R1")), &config(false), 1);
    assert_eq!("error [constraint violated]", seen[seen.len() - 1]);
}

#[test]
fn push_failure_with_recreate_reapplies_from_an_empty_database() {
    let seen = push(&args(Some("R1")), &config(true), 1);
    let at = seen.iter().position(|s| s == "drop app").unwrap();
    assert_eq!("create app", seen[at + 1]);
    assert_eq!("drop postgit_diff_source", seen[at + 2]);
    assert!(!seen[at..].iter().any(|s| s.ends_with("in postgit_diff_source")));
    let n = seen.len();
    assert_eq!(format!("run [{}] in app", ALTER), seen[n - 2]);
    assert_eq!(format!("ok [{}]", ALTER), seen[n - 1]);
}

#[test]
fn push_failing_twice_with_recreate_is_reported() {
    let seen = push(&args(Some("R1")), &config(true), 2);
    assert_eq!(1, seen.iter().filter(|s| *s == "drop app").count());
    assert_eq!("error [constraint violated]", seen[seen.len() - 1]);
}

fn deploy(files: &[(&str, &str)], recreate: bool, fail: &str, times: usize) -> Vec<String> {
    let c = config(recreate);
    let engine = DiffEngineConfig::for_watch(&c);
    let files: Vec<(String, String)> =
        files.iter().map(|(k, v)| (k.to_string(), v.to_string())).collect();
    let mut run = DeployRun::new(&files);
    let mut event = Event::Done;
    let mut seen = Vec::new();
    let mut failures = 0;
    loop {
        let (next, action) = deploy_changes(&c, &engine, run, event);
        let n = name(&action);
        seen.push(n.clone());
        if let Action::Finish(_) = action {
            break;
        }
        event = if n.starts_with(fail) && failures < times {
            failures += 1;
            Event::Failed("bad".to_string())
        } else {
            answer(&action)
        };
        run = next;
    }
    seen
}

#[test]
fn watch_deploy_loads_merged_files_and_applies_the_diff() {
    let seen = deploy(
        &[("w/todo.sql", "-- import ./user.sql\ntodo"), ("w/user.sql", "user")],
        false,
        "-",
        0,
    );
    assert_eq!(
        vec![
            "drop postgit_diff_source".to_string(),
            "create postgit_diff_source".to_string(),
            "run [user\n-- import ./user.sql\ntodo] in postgit_diff_source".to_string(),
            "diff app -> postgit_diff_source".to_string(),
            format!("run [{}] in app", ALTER),
            "drop postgit_diff_source".to_string(),
            format!("ok [{}]", ALTER),
        ],
        seen
    );
}

#[test]
fn watch_deploy_reports_a_schema_that_does_not_load() {
    let seen = deploy(&[("w/a.sql", "a")], false, "run [a]", 1);
    assert_eq!(
        "error [The schema in the watched directory could not be deployed.\nbad]",
        seen[seen.len() - 1]
    );
    assert_eq!("drop postgit_diff_source", seen[seen.len() - 2]);
}

#[test]
fn watch_deploy_recreates_the_target_on_failure() {
    let seen = deploy(&[("w/a.sql", "a")], true, "run [alter", 1);
    let at = seen.iter().position(|s| s == "drop app").unwrap();
    assert_eq!("create app", seen[at + 1]);
    assert_eq!("diff app -> postgit_diff_source", seen[at + 2]);
    assert_eq!(format!("ok [{}]", ALTER), seen[seen.len() - 1]);
}

#[test]
fn watch_deploy_reports_a_second_failure() {
    let seen = deploy(&[("w/a.sql", "a")], true, "run [alter", 2);
    assert_eq!(
        "error [Failed again, retrying on the next file change.\nbad]",
        seen[seen.len() - 1]
    );
}

#[test]
fn watch_deploy_without_recreate_reports_the_apply_failure() {
    let seen = deploy(&[("w/a.sql", "a")], false, "run [alter", 1);
    assert_eq!(
        "error [Could not apply the changes to the target db.\nbad]",
        seen[seen.len() - 1]
    );
}

#[test]
fn watch_deploy_of_a_cycle_does_nothing() {
    let files = vec![
        ("w/a.sql".to_string(), "-- import ./b.sql\na".to_string()),
        ("w/b.sql".to_string(), "-- import ./a.sql\nb".to_string()),
    ];
    let run = DeployRun::new(&files);
    assert_eq!(DeployStage::Finished, run.stage);
    let c = config(false);
    let engine = DiffEngineConfig::for_watch(&c);
    let (_, action) = deploy_changes(&c, &engine, run, Event::Done);
    assert_eq!("error [Dependency cycle found.]", name(&action));
}
