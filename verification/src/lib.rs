//! Canonicalization of type annotations for the editor: a parsed type
//! annotation is turned into `Type2` nodes stored in a pool, while the
//! rigid type variables, wildcards and type symbols that it mentions are
//! recorded, and problems are reported to the environment.

pub mod region;
pub mod symbol;
pub mod subs;
pub mod problem;
pub mod ast;
pub mod pool;
pub mod types;
pub mod scope;
pub mod env;
pub mod assoc;
pub mod canon;
pub mod laws;
pub mod resolve;
pub mod shape;
pub mod records;
