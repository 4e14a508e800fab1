//! A decoder for TOON (Token-Oriented Object Notation) documents, with
//! verified contracts.
//!
//! A document goes through four steps: its comment lines are blanked in
//! place, the offsets of its structural bytes are indexed, an indentation
//! driven state machine builds a tape of nodes from those offsets, and the
//! tape is read into a value, where a key that an object repeats keeps its
//! first position and its last value.

pub mod comments;
pub mod error;
pub mod options;
pub mod parser;
pub mod scalar;
pub mod stage1;
pub mod stage2;
pub mod tape;
pub mod utf8;
pub mod value;

pub use error::{Error, ErrorType};
pub use options::{DecodeOptions, DEFAULT_INDENT_SIZE};
pub use parser::{
    to_borrowed_value, to_borrowed_value_with_buffers, to_borrowed_value_with_options, to_owned_value,
    to_owned_value_with_buffers, to_owned_value_with_options, to_tape, to_tape_with_options, BorrowedValue,
    Buffers, Deserializer, OwnedValue, Parser, Tape,
};
pub use tape::{Node, StaticNode};
pub use value::Value;
