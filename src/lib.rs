//! Differential update engine: versioned releases published as complete
//! and patch packages, and workspaces moved between versions along the
//! cheapest sequence of packages.
//!
//! - [`name`]: clean names, the identifiers that appear in file names.
//! - [`metadata`]: versions, packages and their operations.
//! - [`layout`]: how operations' data ranges tile a package's data.
//! - [`codec`]: codec options, encoders and the SHA-256 digest.
//! - [`builder`]: the task list that takes one tree to another.
//! - [`package`]: package assembly from a task list.
//! - [`repository`]: the repository index and its rules.
//! - [`planner`]: the shortest plan between two revisions.
//! - [`workspace`]: the persisted state of a workspace and its transitions.
//! - [`integrity`]: acceptance of installed and checked files.
//! - [`progress`]: build and update progress.
//! - [`commands`]: decisions of the command-line front end.
pub mod builder;
pub mod codec;
pub mod commands;
pub mod integrity;
pub mod layout;
pub mod metadata;
pub mod name;
pub mod package;
pub mod planner;
pub mod progress;
pub mod repository;
pub mod workspace;
