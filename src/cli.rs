//! The commands and their arguments.
use vstd::prelude::*;

verus! {

/// Arguments of the diff and push commands.
pub struct DiffArgs {
    /// Path to the root of the repository.
    pub repo_path: String,
    /// Revision of the source schema; absent for the first migration, when
    /// the database is empty.
    pub from: Option<String>,
    /// Revision of the target schema.
    pub to: String,
    /// Path of the source schema, when it differs from the target path.
    pub source_path: Option<String>,
    /// Path of the schema file or directory, from the repository root.
    pub path: String,
}

/// Arguments of the watch command.
pub struct WatchArgs {
    /// The directory to watch.
    pub path: String,
}

/// The commands.
pub enum Commands {
    /// Shows the migration between two schemas.
    Diff(DiffArgs),
    /// Computes the migration between two schemas and applies it to the
    /// target database.
    Push(DiffArgs),
    /// Watches a directory and applies its schema to the target database.
    Watch(WatchArgs),
}

/// A parsed command line.
pub struct Cli {
    pub command: Commands,
}

} // verus!
