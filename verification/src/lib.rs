//! Start-project detection for build solutions.
//!
//! A solution manifest declares member projects; a project manifest refers
//! to other projects. A start project is a member that no member refers to.
//! The engine reads both manifests line by line, brings every path it finds
//! into one canonical form, and reduces the members to the start projects.
//!
//! The engine never touches a file system. Whoever calls it gathers the
//! manifests and the real places of the paths they name in a `Snapshot`;
//! everything here is a function of that snapshot and of the paths given.

pub mod bytes;
pub mod grammar;
pub mod graph;
pub mod lines;
pub mod path;
pub mod report;
pub mod resolve;
pub mod snapshot;
pub mod solution;

pub use crate::grammar::ManifestKind;
pub use crate::path::ProjectPath;
pub use crate::resolve::get_canonical_dir;
pub use crate::resolve::get_canonical_path;
pub use crate::snapshot::Snapshot;
pub use crate::solution::get_project_dependency_paths;
pub use crate::solution::get_project_paths;
pub use crate::solution::get_start_project_paths;
pub use crate::solution::get_start_projects;
pub use crate::solution::StartProjects;
