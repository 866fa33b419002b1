use crate::context::command_context::ParsedValue;
use crate::context::string_range::StringRange;
use crate::error::BrigadierError;
use vstd::prelude::*;

verus! {

/// The range one argument took in the input, and what was read there.
#[derive(Debug, PartialEq)]
pub struct ParsedArgument {
    pub range: StringRange,
    pub result: Result<ParsedValue, BrigadierError>,
}

impl ParsedArgument {
    pub fn new(start: usize, end: usize, result: Result<ParsedValue, BrigadierError>) -> (r: ParsedArgument)
        ensures
            r.range == StringRange::spec_new(start, end),
            r.result == result,
    {
        ParsedArgument { range: StringRange::new(start, end), result }
    }

    pub fn get_range(&self) -> (r: StringRange)
        ensures
            r == self.range,
    {
        self.range
    }

    pub fn get_result(&self) -> (r: &Result<ParsedValue, BrigadierError>)
        ensures
            *r == self.result,
    {
        &self.result
    }
}

} // verus!
