//! Selects the packages of a workspace that a set of changed files affects,
//! and renders a build command scoped to them.
pub mod paths;
pub mod names;
pub mod index;
pub mod workspace;
pub mod template;
pub mod cli;
