//! A tree-walking interpreter for a small, dynamically typed, C-like scripting language:
//! a tokenizer, a recursive-descent parser and an evaluator over a stack of lexical scopes.
//!
//! Numbers are IEEE-754 binary64 values held by their bit pattern. Their sign, zero test,
//! equality and ordering are decided here; the operations that need real floating-point
//! rounding (parsing, the four arithmetic operators, formatting) come from an [`Arithmetic`]
//! that the caller supplies.

pub mod ast;
pub mod environment;
pub mod error;
pub mod interpreter;
pub mod laws;
pub mod parser;
pub mod pipeline;
pub mod token;
pub mod tokenizer;
pub mod value;

pub use ast::{ElseIfBranch, Expr, Stmt};
pub use environment::Environment;
pub use error::{CompilerError, Error, ErrorKind};
pub use interpreter::{evaluate, execute, interpret};
pub use parser::{parse, Parser};
pub use pipeline::{run, Phase, Report};
pub use token::{Token, TokenKind};
pub use tokenizer::{tokenize, Tokenizer};
pub use value::{Arithmetic, Literal, Number, Value};
