//! A line calculator: a tokenizer and a recursive-descent evaluator over a
//! persistent table of integer variables.

pub mod eval;
pub mod expr;
pub mod tokenizer;

pub use eval::{EvalError, Evaluator, RunError, VarTable};
pub use tokenizer::{LexError, Token, Tokenizer};
