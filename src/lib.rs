//! A small concatenative, stack-based interpreter: a lexer for lines of
//! tokens, a resolver that turns tokens into words against a dictionary of
//! compound words, and an evaluator that runs words on a stack of integers.
pub mod context;
pub mod eval;
pub mod parser;
pub mod session;
pub mod state;
pub mod word;
