//! Three-way merging of dependency manifests: one requirement per line,
//! additions and removals carried over, versions and revisions never lowered.
mod text;
mod grammar;
pub mod requirement;
pub mod version;
pub mod differ;
pub mod merger;
pub mod laws;

pub use differ::{differ, DiffOp};
pub use merger::{format_requirements, merge};
pub use requirement::{parse_requirements, Requirement};
pub use version::{version_greater, version_greater_given};
