use crate::context::command_context::CommandContext;
use crate::error::BrigadierError;
use crate::string_reader::StringReader;
use vstd::prelude::*;

verus! {

/// The outcome of parsing one line: the chain of contexts built so far (one
/// more after each redirect), the reader where parsing stopped, and the error
/// with its offset when parsing failed.
#[derive(Debug)]
pub struct ParseResults {
    pub contexts: Vec<CommandContext>,
    pub reader: StringReader,
    pub error: Option<(BrigadierError, usize)>,
}

impl ParseResults {
    pub fn new(contexts: Vec<CommandContext>, reader: StringReader, error: Option<(BrigadierError, usize)>) -> (r: ParseResults)
        ensures
            r.contexts == contexts,
            r.reader == reader,
            r.error == error,
    {
        ParseResults { contexts, reader, error }
    }

    pub fn get_reader(&self) -> (r: &StringReader)
        ensures
            *r == self.reader,
    {
        &self.reader
    }

    pub fn get_context(&self) -> (r: &Vec<CommandContext>)
        ensures
            *r == self.contexts,
    {
        &self.contexts
    }
}

} // verus!
