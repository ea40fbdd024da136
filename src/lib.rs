//! Schema resolution and deployment planning for declarative SQL schemas kept
//! in a versioned source tree.
pub mod text;
pub mod cli;
pub mod config;
pub mod path;
pub mod imports;
pub mod graph;
pub mod merge;
pub mod repo;
pub mod db;
pub mod diff;
pub mod pipeline;
