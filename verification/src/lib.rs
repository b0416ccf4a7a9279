//! A small Lisp core: a tokenizer and a reader that turn text into values,
//! a chained environment, an evaluator with `def!` and `let*`, arithmetic
//! built in, and a printer.
//!
//! Every executable function carries a contract over a mathematical model:
//! text is a `Seq<char>`, a value is a [`types::Value`], and an environment
//! is a sequence of scopes, innermost first. What holds of several
//! functions together is stated in proof functions beside them.

#![allow(non_snake_case)]

pub mod trusted;
pub mod types;
pub mod text;
pub mod error;
pub mod tokenizer;
pub mod reader;
pub mod printer;
pub mod env;
pub mod natives;
pub mod eval;
pub mod repl;
