//! The programs that the library works with: Git, the GitHub CLI and a pager.

pub mod fetch_laws;
pub mod gh_stack;
pub mod git;
pub mod github;
pub mod json;
pub mod log;
pub mod log_laws;
pub mod runner;
pub mod stack_laws;
