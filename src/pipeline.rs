//! The diff, push and watch-deploy runs as state machines: each step takes
//! what the last action gave and says what to do next. The caller performs
//! the actions (resolving schemas, database statements, the diff command).
use vstd::prelude::*;

use crate::cli::DiffArgs;
use crate::config::{Config, DiffEngineConfig, PostgresConfig};
use crate::merge::{SchemaError, file_views, keys_distinct, merge_admits, merge_sql_scripts, mergeable};

verus! {

/// What the caller is to do next.
pub enum Action {
    /// Resolve the schema at `path` in `revision`; answer with its script.
    ResolveSchema { revision: String, path: String },
    /// Drop this database if it exists.
    DropDatabase(PostgresConfig),
    /// Create this database.
    CreateDatabase(PostgresConfig),
    /// Run `script` in one transaction in `database`.
    RunScript { script: String, database: PostgresConfig },
    /// Run the diff command of this engine; answer with its script.
    RunDiff(DiffEngineConfig),
    /// The run is over, with this result.
    Finish(Result<String, String>),
}

/// How the last action went.
pub enum Event {
    /// It succeeded.
    Done,
    /// It succeeded and gave this text.
    Text(String),
    /// It failed with this message.
    Failed(String),
}

/// Where a diff or push run stands.
#[derive(Clone, Copy, PartialEq, Eq, Structural, Debug)]
pub enum Stage {
    Start,
    ResolvingSource,
    ResolvingTarget,
    DroppingSource,
    DroppingTarget,
    CreatingSource,
    CreatingTarget,
    LoadingSource,
    LoadingTarget,
    Diffing,
    CleaningSource,
    CleaningTarget,
    Applying,
    RecreateDropping,
    RecreateCreating,
    Finished,
}

/// A diff or push run: its stage and what it has gathered.
pub struct DiffRun {
    pub stage: Stage,
    pub source_schema: Option<String>,
    pub target_schema: String,
    pub diff: String,
    pub error: Option<String>,
    pub retried: bool,
}

impl DiffRun {
    /// A run that has not started.
    pub fn new() -> (r: DiffRun)
        ensures
            r.stage == Stage::Start,
            r.source_schema is None,
            r.error is None,
            !r.retried,
    {
        DiffRun {
            stage: Stage::Start,
            source_schema: None,
            target_schema: String::new(),
            diff: String::new(),
            error: None,
            retried: false,
        }
    }
}

/// The text an event carries; a plain success carries none.
pub open spec fn event_text(e: Event) -> Seq<char> {
    match e {
        Event::Text(t) => t@,
        _ => Seq::empty(),
    }
}

/// The path of the source schema: its own when given, else the target's.
pub open spec fn source_path_of(args: DiffArgs) -> String {
    match args.source_path {
        Some(p) => p,
        None => args.path,
    }
}

/// The error a cleanup step keeps: the first one seen.
pub open spec fn first_error(kept: Option<String>, e: Event) -> Option<String> {
    match kept {
        Some(m) => Some(m),
        None => match e {
            Event::Failed(m) => Some(m),
            _ => None,
        },
    }
}

/// The result a finished run reports.
pub open spec fn result_of(run: DiffRun) -> Result<String, String> {
    match run.error {
        Some(m) => Err(m),
        None => Ok(run.diff),
    }
}

fn copy_string(s: &String) -> (r: String)
    ensures
        r == *s,
{
    s.clone()
}

fn copy_option(o: &Option<String>) -> (r: Option<String>)
    ensures
        r == *o,
{
    match o {
        Some(s) => Some(s.clone()),
        None => None,
    }
}

fn copy_engine(c: &DiffEngineConfig) -> (r: DiffEngineConfig)
    ensures
        r == *c,
{
    DiffEngineConfig {
        command: copy_option(&c.command),
        source: c.source.duplicate(),
        target: c.target.duplicate(),
    }
}

fn text_of(e: &Event) -> (r: String)
    ensures
        r@ == event_text(*e),
{
    match e {
        Event::Text(t) => t.clone(),
        _ => String::new(),
    }
}

fn keep_first_error(kept: Option<String>, e: &Event) -> (r: Option<String>)
    ensures
        r == first_error(kept, *e),
{
    match kept {
        Some(m) => Some(m),
        None => match e {
            Event::Failed(m) => Some(m.clone()),
            _ => None,
        },
    }
}

/// One step of a diff run, as `get_diff_string` takes it: from `run` and
/// the `event` that the last action gave, the run moves to `next` and asks for
/// `action`.
pub open spec fn diff_step(
    args: DiffArgs,
    config: Config,
    run: DiffRun,
    event: Event,
    next: DiffRun,
    action: Action,
) -> bool {
    let engine = config.diff_engine;
    let failed = event is Failed;
    let failure = match event {
        Event::Failed(m) => m,
        _ => run.diff,
    };
    &&& run.stage == Stage::Start ==> match args.from {
        Some(f) => next.stage == Stage::ResolvingSource && action == Action::ResolveSchema {
            revision: f,
            path: source_path_of(args),
        },
        None => next.stage == Stage::ResolvingTarget && action == Action::ResolveSchema {
            revision: args.to,
            path: args.path,
        },
    }
    &&& run.stage == Stage::ResolvingSource ==> if failed {
        next.stage == Stage::Finished && next.error == Some(failure) && action
            == Action::Finish(Err(failure))
    } else {
        next.stage == Stage::ResolvingTarget && (next.source_schema matches Some(s) && s@
            == event_text(event)) && action == Action::ResolveSchema {
            revision: args.to,
            path: args.path,
        }
    }
    &&& run.stage == Stage::ResolvingTarget ==> if failed {
        next.stage == Stage::Finished && next.error == Some(failure) && action
            == Action::Finish(Err(failure))
    } else {
        next.stage == Stage::DroppingSource && next.target_schema@ == event_text(event)
            && next.source_schema == run.source_schema && action == Action::DropDatabase(
            engine.source,
        )
    }
    &&& (run.stage == Stage::DroppingSource || run.stage == Stage::DroppingTarget
        || run.stage == Stage::CreatingSource || run.stage == Stage::CreatingTarget
        || run.stage == Stage::LoadingSource || run.stage == Stage::LoadingTarget) && failed
        ==> next.stage == Stage::CleaningSource && next.error == Some(failure) && action
        == Action::DropDatabase(engine.source)
    &&& run.stage == Stage::DroppingSource && !failed ==> next.stage == Stage::DroppingTarget
        && action == Action::DropDatabase(engine.target)
    &&& run.stage == Stage::DroppingTarget && !failed ==> next.stage == Stage::CreatingSource
        && action == Action::CreateDatabase(engine.source)
    &&& run.stage == Stage::CreatingSource && !failed ==> next.stage == Stage::CreatingTarget
        && action == Action::CreateDatabase(engine.target)
    &&& run.stage == Stage::CreatingTarget && !failed ==> match run.source_schema {
        Some(s) => next.stage == Stage::LoadingSource && action == Action::RunScript {
            script: s,
            database: engine.source,
        },
        None => next.stage == Stage::LoadingTarget && action == Action::RunScript {
            script: run.target_schema,
            database: engine.target,
        },
    }
    &&& run.stage == Stage::LoadingSource && !failed ==> next.stage == Stage::LoadingTarget
        && action == Action::RunScript { script: run.target_schema, database: engine.target }
    &&& run.stage == Stage::LoadingTarget && !failed ==> next.stage == Stage::Diffing
        && action == Action::RunDiff(engine)
    &&& run.stage == Stage::Diffing ==> next.stage == Stage::CleaningSource && action
        == Action::DropDatabase(engine.source) && if failed {
        next.error == Some(failure)
    } else {
        next.error == run.error && next.diff@ == event_text(event)
    }
    &&& run.stage == Stage::CleaningSource ==> next.stage == Stage::CleaningTarget
        && next.error == first_error(run.error, event) && next.diff == run.diff && action
        == Action::DropDatabase(engine.target)
    &&& run.stage == Stage::CleaningTarget ==> next.stage == Stage::Finished && next.error
        == first_error(run.error, event) && next.diff == run.diff && action
        == Action::Finish(result_of(next))
    &&& (run.stage == Stage::Finished || run.stage == Stage::Applying || run.stage
        == Stage::RecreateDropping || run.stage == Stage::RecreateCreating) ==> next.stage
        == Stage::Finished && next.error == run.error && next.diff == run.diff && action
        == Action::Finish(result_of(run))
    &&& next.retried == run.retried
}

/// One step of a diff run. In order: resolve the source schema (when there
/// is a source revision) and the target schema; drop, then create, both
/// scratch databases; load the source schema (if any) and the target schema
/// into them; run the diff command; drop both scratch databases; finish with
/// the diff. A failed resolution finishes at once with its message. A
/// failure from the first drop to the diff goes straight to the two drops,
/// which always run, and the run finishes with the first failure.
pub fn get_diff_string(args: &DiffArgs, config: &Config, run: DiffRun, event: Event) -> (r: (
    DiffRun,
    Action,
))
    ensures
        diff_step(*args, *config, run, event, r.0, r.1),
{
    let engine = &config.diff_engine;
    let mut run = run;
    let stage = run.stage;
    let failure: Option<String> = match &event {
        Event::Failed(m) => Some(m.clone()),
        _ => None,
    };
    if stage == Stage::Start {
        match &args.from {
            Some(f) => {
                let path = match &args.source_path {
                    Some(p) => copy_string(p),
                    None => copy_string(&args.path),
                };
                run.stage = Stage::ResolvingSource;
                (run, Action::ResolveSchema { revision: copy_string(f), path })
            },
            None => {
                run.stage = Stage::ResolvingTarget;
                (
                    run,
                    Action::ResolveSchema {
                        revision: copy_string(&args.to),
                        path: copy_string(&args.path),
                    },
                )
            },
        }
    } else if stage == Stage::ResolvingSource || stage == Stage::ResolvingTarget {
        match failure {
            Some(m) => {
                run.stage = Stage::Finished;
                run.error = Some(copy_string(&m));
                (run, Action::Finish(Err(m)))
            },
            None => {
                let text = text_of(&event);
                if stage == Stage::ResolvingSource {
                    run.stage = Stage::ResolvingTarget;
                    run.source_schema = Some(text);
                    (
                        run,
                        Action::ResolveSchema {
                            revision: copy_string(&args.to),
                            path: copy_string(&args.path),
                        },
                    )
                } else {
                    run.stage = Stage::DroppingSource;
                    run.target_schema = text;
                    (run, Action::DropDatabase(engine.source.duplicate()))
                }
            },
        }
    } else if stage == Stage::DroppingSource || stage == Stage::DroppingTarget || stage
        == Stage::CreatingSource || stage == Stage::CreatingTarget || stage == Stage::LoadingSource
        || stage == Stage::LoadingTarget {
        match failure {
            Some(m) => {
                run.stage = Stage::CleaningSource;
                run.error = Some(m);
                (run, Action::DropDatabase(engine.source.duplicate()))
            },
            None => {
                if stage == Stage::DroppingSource {
                    run.stage = Stage::DroppingTarget;
                    (run, Action::DropDatabase(engine.target.duplicate()))
                } else if stage == Stage::DroppingTarget {
                    run.stage = Stage::CreatingSource;
                    (run, Action::CreateDatabase(engine.source.duplicate()))
                } else if stage == Stage::CreatingSource {
                    run.stage = Stage::CreatingTarget;
                    (run, Action::CreateDatabase(engine.target.duplicate()))
                } else if stage == Stage::CreatingTarget {
                    match copy_option(&run.source_schema) {
                        Some(s) => {
                            run.stage = Stage::LoadingSource;
                            (
                                run,
                                Action::RunScript {
                                    script: s,
                                    database: engine.source.duplicate(),
                                },
                            )
                        },
                        None => {
                            run.stage = Stage::LoadingTarget;
                            let script = copy_string(&run.target_schema);
                            (
                                run,
                                Action::RunScript {
                                    script,
                                    database: engine.target.duplicate(),
                                },
                            )
                        },
                    }
                } else if stage == Stage::LoadingSource {
                    run.stage = Stage::LoadingTarget;
                    let script = copy_string(&run.target_schema);
                    (run, Action::RunScript { script, database: engine.target.duplicate() })
                } else {
                    run.stage = Stage::Diffing;
                    (run, Action::RunDiff(copy_engine(engine)))
                }
            },
        }
    } else if stage == Stage::Diffing {
        run.stage = Stage::CleaningSource;
        match failure {
            Some(m) => {
                run.error = Some(m);
            },
            None => {
                run.diff = text_of(&event);
            },
        }
        (run, Action::DropDatabase(engine.source.duplicate()))
    } else if stage == Stage::CleaningSource {
        run.stage = Stage::CleaningTarget;
        run.error = keep_first_error(run.error, &event);
        (run, Action::DropDatabase(engine.target.duplicate()))
    } else if stage == Stage::CleaningTarget {
        run.stage = Stage::Finished;
        run.error = keep_first_error(run.error, &event);
        let result = match &run.error {
            Some(m) => Err(copy_string(m)),
            None => Ok(copy_string(&run.diff)),
        };
        (run, Action::Finish(result))
    } else {
        let result = match &run.error {
            Some(m) => Err(copy_string(m)),
            None => Ok(copy_string(&run.diff)),
        };
        run.stage = Stage::Finished;
        (run, Action::Finish(result))
    }
}


/// One step of a push run: the diff run, then the diff is run in the target
/// database. When that fails and the configuration asks to recreate the
/// database on failure, the target database is dropped and created again, the
/// diff is computed anew from an empty source (the target schema as
/// resolved), and applied once more; a second failure finishes the run.
pub fn apply_diff(args: &DiffArgs, config: &Config, run: DiffRun, event: Event) -> (r: (
    DiffRun,
    Action,
))
    ensures
        ({
            let (next, action) = r;
            let failed = event is Failed;
            let failure = match event {
                Event::Failed(m) => m,
                _ => run.diff,
            };
            let target = config.target;
            &&& !(run.stage == Stage::CleaningTarget || run.stage == Stage::Applying || run.stage
                == Stage::RecreateDropping || run.stage == Stage::RecreateCreating || run.stage
                == Stage::Finished) ==> diff_step(*args, *config, run, event, next, action)
            &&& run.stage == Stage::CleaningTarget ==> match first_error(run.error, event) {
                Some(m) => next.stage == Stage::Finished && next.error == Some(m) && action
                    == Action::Finish(Err(m)),
                None => next.stage == Stage::Applying && next.diff == run.diff && next.retried
                    == run.retried && action == Action::RunScript {
                    script: run.diff,
                    database: target,
                },
            }
            &&& run.stage == Stage::Applying && !failed ==> next.stage == Stage::Finished
                && next.error is None && action == Action::Finish(Ok(run.diff))
            &&& run.stage == Stage::Applying && failed ==> if config.watch.recreate_db_on_fail
                && !run.retried {
                next.stage == Stage::RecreateDropping && next.retried && next.target_schema
                    == run.target_schema && action == Action::DropDatabase(target)
            } else {
                next.stage == Stage::Finished && next.error == Some(failure) && action
                    == Action::Finish(Err(failure))
            }
            &&& run.stage == Stage::RecreateDropping ==> if failed {
                next.stage == Stage::Finished && next.error == Some(failure) && action
                    == Action::Finish(Err(failure))
            } else {
                next.stage == Stage::RecreateCreating && next.retried == run.retried
                    && next.target_schema == run.target_schema && action == Action::CreateDatabase(
                    target,
                )
            }
            &&& run.stage == Stage::RecreateCreating ==> if failed {
                next.stage == Stage::Finished && next.error == Some(failure) && action
                    == Action::Finish(Err(failure))
            } else {
                next.stage == Stage::DroppingSource && next.source_schema is None
                    && next.target_schema == run.target_schema && next.error is None
                    && next.retried == run.retried && action == Action::DropDatabase(
                    config.diff_engine.source,
                )
            }
            &&& run.stage == Stage::Finished ==> next.stage == Stage::Finished && action
                == Action::Finish(result_of(run))
        }),
{
    let stage = run.stage;
    if stage == Stage::CleaningTarget {
        let (next, action) = get_diff_string(args, config, run, event);
        match action {
            Action::Finish(Ok(d)) => {
                let mut next = next;
                next.stage = Stage::Applying;
                (next, Action::RunScript { script: d, database: config.target.duplicate() })
            },
            other => (next, other),
        }
    } else if stage == Stage::Applying || stage == Stage::RecreateDropping || stage
        == Stage::RecreateCreating {
        let mut run = run;
        match event {
            Event::Failed(m) => {
                if stage == Stage::Applying && config.watch.recreate_db_on_fail && !run.retried {
                    run.stage = Stage::RecreateDropping;
                    run.retried = true;
                    (run, Action::DropDatabase(config.target.duplicate()))
                } else {
                    run.stage = Stage::Finished;
                    run.error = Some(copy_string(&m));
                    (run, Action::Finish(Err(m)))
                }
            },
            _ => {
                if stage == Stage::Applying {
                    run.stage = Stage::Finished;
                    run.error = None;
                    let d = copy_string(&run.diff);
                    (run, Action::Finish(Ok(d)))
                } else if stage == Stage::RecreateDropping {
                    run.stage = Stage::RecreateCreating;
                    (run, Action::CreateDatabase(config.target.duplicate()))
                } else {
                    run.stage = Stage::DroppingSource;
                    run.source_schema = None;
                    run.error = None;
                    (run, Action::DropDatabase(config.diff_engine.source.duplicate()))
                }
            },
        }
    } else {
        get_diff_string(args, config, run, event)
    }
}

/// Where a watch-triggered deploy stands.
#[derive(Clone, Copy, PartialEq, Eq, Structural, Debug)]
pub enum DeployStage {
    Start,
    DroppingScratch,
    CreatingScratch,
    LoadingScratch,
    Diffing,
    Applying,
    RecreateDropping,
    RecreateCreating,
    Rediffing,
    Reapplying,
    Cleaning,
    Finished,
}

/// A deploy of the watched schema: its stage, the merged schema, the diff,
/// and the failure to report, if any.
pub struct DeployRun {
    pub stage: DeployStage,
    pub schema: String,
    pub diff: String,
    pub error: Option<String>,
}

/// No two files share a path.
pub fn paths_unique(files: &Vec<(String, String)>) -> (r: bool)
    ensures
        r == keys_distinct(file_views(files@)),
{
    let n = files.len();
    let ghost fs = file_views(files@);
    let mut i: usize = 0;
    while i < n
        invariant
            n == files.len(),
            fs == file_views(files@),
            i <= n,
            forall|a: int, b: int| 0 <= a < i && 0 <= b < n && a != b ==> fs[a].0 != fs[b].0,
        decreases n - i,
    {
        let mut j: usize = 0;
        while j < n
            invariant
                n == files.len(),
                fs == file_views(files@),
                i < n,
                j <= n,
                forall|a: int, b: int| 0 <= a < i && 0 <= b < n && a != b ==> fs[a].0 != fs[b].0,
                forall|b: int| 0 <= b < j && b != i ==> fs[i as int].0 != fs[b].0,
            decreases n - j,
        {
            if j != i && files[i].0 == files[j].0 {
                assert(fs[i as int].0 == fs[j as int].0);
                return false;
            }
            j = j + 1;
        }
        i = i + 1;
    }
    true
}

impl SchemaError {
    /// A message for people.
    pub fn message(&self) -> (r: String)
        ensures
            self is DependencyCycle ==> r@ == "Dependency cycle found."@,
            self matches SchemaError::RevisionNotFound(rev) ==> r@ == "Didn't find source commit for ref "@ + rev@,
            self matches SchemaError::EncodingError(p) ==> r@ == "Not UTF-8 text: "@ + p@,
    {
        match self {
            SchemaError::DependencyCycle => String::from_str("Dependency cycle found."),
            SchemaError::RevisionNotFound(rev) => {
                let mut m = String::from_str("Didn't find source commit for ref ");
                m.append(rev.as_str());
                m
            },
            SchemaError::EncodingError(p) => {
                let mut m = String::from_str("Not UTF-8 text: ");
                m.append(p.as_str());
                m
            },
        }
    }
}

/// `prefix`, a line break, then `m`.
fn explained(prefix: &str, m: &str) -> (r: String)
    ensures
        r@ == prefix@ + "\n"@ + m@,
{
    let mut s = String::from_str(prefix);
    s.append("\n");
    s.append(m);
    s
}

impl DeployRun {
    /// A deploy of the schema that the watched files merge into. Files that
    /// share a path, or imports that form a cycle, leave nothing to deploy: the
    /// run is finished at once and reports why.
    pub fn new(files: &Vec<(String, String)>) -> (r: DeployRun)
        ensures
            !keys_distinct(file_views(files@)) ==> r.stage == DeployStage::Finished && r.error
                is Some,
            keys_distinct(file_views(files@)) ==> (r.stage == DeployStage::Start <==> mergeable(
                file_views(files@),
            )),
            keys_distinct(file_views(files@)) && r.stage == DeployStage::Start ==> r.error is None
                && merge_admits(file_views(files@), r.schema@),
            keys_distinct(file_views(files@)) && !mergeable(file_views(files@)) ==> r.stage
                == DeployStage::Finished && (r.error matches Some(m) && m@
                == "Dependency cycle found."@),
    {
        if !paths_unique(files) {
            return DeployRun {
                stage: DeployStage::Finished,
                schema: String::new(),
                diff: String::new(),
                error: Some(String::from_str("Two watched files share a path.")),
            };
        }
        match merge_sql_scripts(files) {
            Ok(schema) => DeployRun {
                stage: DeployStage::Start,
                schema,
                diff: String::new(),
                error: None,
            },
            Err(e) => DeployRun {
                stage: DeployStage::Finished,
                schema: String::new(),
                diff: String::new(),
                error: Some(e.message()),
            },
        }
    }
}

/// The result a finished deploy reports.
pub open spec fn deploy_result(run: DeployRun) -> Result<String, String> {
    match run.error {
        Some(m) => Err(m),
        None => Ok(run.diff),
    }
}

/// One step of a deploy of the watched schema into the target database. In
/// order: drop, then create, the scratch database (`config.diff_engine.source`);
/// load the merged schema into it; run `watch_engine`'s diff, which goes from
/// the live target database to the scratch one; run that diff in the target
/// database; drop the scratch database. When running the diff fails and the
/// configuration asks to recreate the database on failure, the target
/// database is dropped and created again, the diff computed anew and run once
/// more. Every failure ends in dropping the scratch database, and the run
/// reports the failure; none is fatal to the watch loop.
pub fn deploy_changes(config: &Config, watch_engine: &DiffEngineConfig, run: DeployRun, event: Event) -> (r: (
    DeployRun,
    Action,
))
    ensures
        ({
            let (next, action) = r;
            let failed = event is Failed;
            let failure = match event {
                Event::Failed(m) => m,
                _ => run.diff,
            };
            let scratch = config.diff_engine.source;
            let target = config.target;
            &&& run.stage == DeployStage::Start ==> next.stage == DeployStage::DroppingScratch
                && action == Action::DropDatabase(scratch)
            &&& run.stage == DeployStage::DroppingScratch ==> if failed {
                next.stage == DeployStage::Cleaning && next.error == Some(failure) && action
                    == Action::DropDatabase(scratch)
            } else {
                next.stage == DeployStage::CreatingScratch && action == Action::CreateDatabase(
                    scratch,
                )
            }
            &&& run.stage == DeployStage::CreatingScratch ==> if failed {
                next.stage == DeployStage::Cleaning && next.error == Some(failure) && action
                    == Action::DropDatabase(scratch)
            } else {
                next.stage == DeployStage::LoadingScratch && action == Action::RunScript {
                    script: run.schema,
                    database: scratch,
                }
            }
            &&& run.stage == DeployStage::LoadingScratch ==> if failed {
                next.stage == DeployStage::Cleaning && (next.error matches Some(m) && m@
                    == "The schema in the watched directory could not be deployed."@ + "\n"@
                    + failure@) && action == Action::DropDatabase(scratch)
            } else {
                next.stage == DeployStage::Diffing && action == Action::RunDiff(*watch_engine)
            }
            &&& (run.stage == DeployStage::Diffing || run.stage == DeployStage::Rediffing) ==> if failed {
                next.stage == DeployStage::Cleaning && next.error == Some(failure) && action
                    == Action::DropDatabase(scratch)
            } else {
                next.diff@ == event_text(event) && action == Action::RunScript {
                    script: next.diff,
                    database: target,
                } && next.stage == if run.stage == DeployStage::Diffing {
                    DeployStage::Applying
                } else {
                    DeployStage::Reapplying
                }
            }
            &&& run.stage == DeployStage::Applying ==> if !failed {
                next.stage == DeployStage::Cleaning && next.error is None && next.diff == run.diff
                    && action == Action::DropDatabase(scratch)
            } else if config.watch.recreate_db_on_fail {
                next.stage == DeployStage::RecreateDropping && action == Action::DropDatabase(target)
            } else {
                next.stage == DeployStage::Cleaning && (next.error matches Some(m) && m@
                    == "Could not apply the changes to the target db."@ + "\n"@ + failure@) && action
                    == Action::DropDatabase(scratch)
            }
            &&& run.stage == DeployStage::RecreateDropping ==> if failed {
                next.stage == DeployStage::Cleaning && next.error == Some(failure) && action
                    == Action::DropDatabase(scratch)
            } else {
                next.stage == DeployStage::RecreateCreating && action == Action::CreateDatabase(
                    target,
                )
            }
            &&& run.stage == DeployStage::RecreateCreating ==> if failed {
                next.stage == DeployStage::Cleaning && next.error == Some(failure) && action
                    == Action::DropDatabase(scratch)
            } else {
                next.stage == DeployStage::Rediffing && action == Action::RunDiff(*watch_engine)
            }
            &&& run.stage == DeployStage::Reapplying ==> next.stage == DeployStage::Cleaning
                && action == Action::DropDatabase(scratch) && if failed {
                (next.error matches Some(m) && m@
                    == "Failed again, retrying on the next file change."@ + "\n"@ + failure@)
            } else {
                next.error is None && next.diff == run.diff
            }
            &&& run.stage == DeployStage::Cleaning ==> next.stage == DeployStage::Finished
                && next.error == run.error && next.diff == run.diff && action == Action::Finish(
                deploy_result(run),
            )
            &&& run.stage == DeployStage::Finished ==> next.stage == DeployStage::Finished
                && action == Action::Finish(deploy_result(run))
        }),
{
    let scratch = &config.diff_engine.source;
    let target = &config.target;
    let stage = run.stage;
    let mut run = run;
    if stage == DeployStage::Start {
        run.stage = DeployStage::DroppingScratch;
        return (run, Action::DropDatabase(scratch.duplicate()));
    }
    if stage == DeployStage::Cleaning || stage == DeployStage::Finished {
        run.stage = DeployStage::Finished;
        let result = match &run.error {
            Some(m) => Err(copy_string(m)),
            None => Ok(copy_string(&run.diff)),
        };
        return (run, Action::Finish(result));
    }
    match event {
        Event::Failed(m) => {
            if stage == DeployStage::Applying && config.watch.recreate_db_on_fail {
                run.stage = DeployStage::RecreateDropping;
                return (run, Action::DropDatabase(target.duplicate()));
            }
            let message = if stage == DeployStage::LoadingScratch {
                explained("The schema in the watched directory could not be deployed.", m.as_str())
            } else if stage == DeployStage::Applying {
                explained("Could not apply the changes to the target db.", m.as_str())
            } else if stage == DeployStage::Reapplying {
                explained("Failed again, retrying on the next file change.", m.as_str())
            } else {
                m
            };
            run.stage = DeployStage::Cleaning;
            run.error = Some(message);
            (run, Action::DropDatabase(scratch.duplicate()))
        },
        _ => {
            if stage == DeployStage::DroppingScratch {
                run.stage = DeployStage::CreatingScratch;
                (run, Action::CreateDatabase(scratch.duplicate()))
            } else if stage == DeployStage::CreatingScratch {
                run.stage = DeployStage::LoadingScratch;
                let script = copy_string(&run.schema);
                (run, Action::RunScript { script, database: scratch.duplicate() })
            } else if stage == DeployStage::LoadingScratch || stage == DeployStage::RecreateCreating {
                run.stage = if stage == DeployStage::LoadingScratch {
                    DeployStage::Diffing
                } else {
                    DeployStage::Rediffing
                };
                (run, Action::RunDiff(copy_engine(watch_engine)))
            } else if stage == DeployStage::Diffing || stage == DeployStage::Rediffing {
                run.stage = if stage == DeployStage::Diffing {
                    DeployStage::Applying
                } else {
                    DeployStage::Reapplying
                };
                run.diff = text_of(&event);
                let script = copy_string(&run.diff);
                (run, Action::RunScript { script, database: target.duplicate() })
            } else if stage == DeployStage::RecreateDropping {
                run.stage = DeployStage::RecreateCreating;
                (run, Action::CreateDatabase(target.duplicate()))
            } else {
                run.stage = DeployStage::Cleaning;
                run.error = None;
                (run, Action::DropDatabase(scratch.duplicate()))
            }
        },
    }
}

} // verus!
