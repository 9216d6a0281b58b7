//! Front end of a small expression language: arena tables addressed by
//! compact keys, a backtracking parser over those tables, a renderer and a
//! type checker built on unification variables.

pub mod parse;
pub mod span;
pub mod syntax;
pub mod tables;
pub mod type_checker;
