//! An interpreter for a small stack language: two stacks, numbered nested functions
//! with lexical scopes, and single-character instructions.

pub mod value;
pub mod program;
pub mod syntax;
pub mod collect;
pub mod semantics;
pub mod machine;
pub mod laws;
pub mod instruction_laws;
pub mod naming_laws;
