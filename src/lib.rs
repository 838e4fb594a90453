//! Front end and tree-walking interpreter for the eight-command tape language.
//!
//! Program text is scanned into [`Token`]s by [`lexer`], the tokens are turned
//! into a tree of [`Instruction`]s by [`parser`], and the tree is executed
//! against a fixed-length tape of bytes by the functions of [`interpreter`].
pub mod syntax;
pub mod lexer;
pub mod parser;
pub mod interpreter;

pub use syntax::{Instruction, ParseError, Token};
pub use lexer::lexer;
pub use parser::parser;
pub use interpreter::{execute, interpret, Machine, RunError};
