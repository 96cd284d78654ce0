//! psh — a shell descended from Plan 9 rc, with typed values.
pub mod ast;
pub mod text;
pub mod value;
pub mod lex;
pub mod types;
pub mod env;
pub mod exec;
pub mod job;
pub mod parse;
pub mod signal;
