//! The token and instruction vocabularies shared by the lexer, the parser and
//! the interpreter.
use vstd::prelude::*;

verus! {

/// One recognised command character of program text.
#[derive(Clone, Copy, Debug, PartialEq, Eq, Structural)]
pub enum Token {
    IncrementPointer,
    DecrementPointer,
    IncrementValue,
    DecrementValue,
    Output,
    Input,
    LoopStart,
    LoopEnd,
}

/// A node of the executable program tree.
///
/// The six plain kinds mirror the tokens one to one; `Loop` owns the body that
/// was found between a matching `[` and `]`.
#[derive(Debug)]
pub enum Instruction {
    IncrementPointer,
    DecrementPointer,
    IncrementValue,
    DecrementValue,
    Output,
    Input,
    Loop(Vec<Instruction>),
}

/// Why a token sequence does not form a program. Positions are indices into
/// the token sequence that was handed to the parser.
#[derive(Clone, Copy, Debug, PartialEq, Eq, Structural)]
pub enum ParseError {
    /// A `]` with no open `[` before it.
    UnmatchedLoopEnd(usize),
    /// A `[` that is never closed; the position is that of the outermost one.
    UnmatchedLoopStart(usize),
}

} // verus!
