//! A compiler core for a small imperative language: parsed source trees
//! are lowered into a typed, basic-block-structured intermediate
//! representation ready for a native backend. The crate covers scope and
//! type management, expression and statement lowering, control-flow
//! construction for loops and early exit, function-call resolution,
//! multi-module resolution and unit linking, all under verified
//! contracts; parsing, file handling and machine-code emission live with
//! the surrounding tooling.

pub mod ast;
pub mod errors;
pub mod ir;
pub mod lower;
pub mod project;
pub mod resolver;
pub mod scope;
pub mod types;
pub mod unit;
pub mod utils;
