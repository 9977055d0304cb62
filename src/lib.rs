//! Parser for the line-oriented assembly language of a stack machine.
//!
//! Every function here is a pure function of its input text: a program is a
//! sequence of lines, each of which names exactly one instruction and ends
//! in a single `\n`.

pub mod instruction;
pub mod lexical;
pub mod program;

pub use instruction::{FloatLiteral, Instruction};
pub use program::{parse, parse_instruction, try_parse, try_parse_instruction, Program};
