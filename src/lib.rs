//! Dependency-graph engine of a package manager: a resolved installation graph
//! with a physical nesting hierarchy, name resolution through that hierarchy,
//! validation, and lockfile export.

pub mod names;
pub mod package;
pub mod graph;
pub mod path;
pub mod lockfile;
pub mod fetch;
