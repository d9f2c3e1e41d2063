//! The core of the mlatu term-rewriting language.
//!
//! Rules are read from text or from their binary form (`parse`, `binary`,
//! `source`), compiled to clauses (`codegen`) and asserted into an engine
//! (`engine`), which answers goals by resolution over unification without
//! occurs check (`unify`) and rewrites terms to normal form (`rewrite`).
//! The engine serves requests one at a time (`protocol`); a front end keeps
//! its side of that exchange in a session (`session`) and writes terms out
//! with `print`. Nothing in the library reads or writes outside memory.

pub mod binary;
pub mod codegen;
pub mod engine;
pub mod limits;
pub mod parse;
pub mod print;
pub mod protocol;
pub mod rewrite;
pub mod session;
pub mod source;
pub mod term;
pub mod unify;
