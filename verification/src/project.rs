//! The project description: what a project's configuration file states,
//! and where the project lives. Reading the file itself is the
//! surrounding tooling's job; the compiler core only consumes these
//! values.

use vstd::prelude::*;

verus! {

/// The contents of a project's configuration file.
#[derive(Debug, Clone)]
pub struct ProjectConfiguration {
    pub name: String,
    pub version: String,
}

/// A project on disk: its root directory and its configuration.
#[derive(Debug, Clone)]
pub struct Project {
    pub path: String,
    pub config: ProjectConfiguration,
}

} // verus!
