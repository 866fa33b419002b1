//! A command grammar engine: a cursor-based tokenizer, typed argument
//! parsers, a command tree with literal and argument nodes, and the
//! suggestion machinery used for completion of partially typed input.

pub mod arguments;
pub mod command_dispatcher;
pub mod context;
pub mod error;
pub mod parse_results;
pub mod string_reader;
pub mod suggestion;
pub mod text;
pub mod tree;
