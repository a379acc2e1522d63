//! An interpreter for the eight-symbol tape language: source text is
//! tokenized into primitive operations, structured into a tree of
//! instructions, and run against a byte tape with a movable cursor.
pub mod machine;
pub mod token;
pub mod tree;

pub use machine::{Executor, Fault, Streams, TAPE_LEN};
pub use token::{parse_1, OpCode};
pub use tree::{is_balanced, parse_2, Instruction};
