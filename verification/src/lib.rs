//! A small command-line shell: a lexer that turns a line into tokens, a
//! parser that builds a pipeline tree from the tokens, and the decisions of
//! the executor that runs the commands of that tree.

pub mod lexer;
pub mod parser;
pub mod executor;
