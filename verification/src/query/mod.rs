//! The query language: calls of named functions on texts and on other calls.

pub mod answers;
pub mod eval;
pub mod function;
pub mod laws;
pub mod repl;
pub mod syntax;
pub mod value;
pub mod written;

pub use eval::{classify, eval, eval_at, QueryCtx, StmtKind, StoreRef};
pub use repl::{repl_line, ReplStep};
pub use value::{QueryError, QueryValue};
