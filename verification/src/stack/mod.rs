//! Planning and publishing a stack.

pub mod assign;
pub mod heads;
pub mod identity;
pub mod laws;
pub mod linking;
pub mod name_laws;
pub mod names;
pub mod object;
pub mod plan_laws;
pub mod planning;
pub mod prepare;
pub mod prepare_laws;
pub mod publication_laws;
pub mod publish;
pub mod ref_laws;
pub mod report;
pub mod rewrite;
pub mod submit;
