use vstd::math::{max, min};
use crate::string_reader::StringReader;
use vstd::prelude::*;

verus! {

/// A `[start, end)` pair of character offsets into an input line.
#[derive(Debug, Clone, Copy, PartialEq, Eq, Structural, Hash, PartialOrd, Ord)]
pub struct StringRange {
    pub start: usize,
    pub end: usize,
}

impl StringRange {
    pub open spec fn spec_new(start: usize, end: usize) -> StringRange {
        StringRange { start, end }
    }

    pub fn new(start: usize, end: usize) -> (r: StringRange)
        ensures
            r.start == start,
            r.end == end,
    {
        StringRange { start, end }
    }

    /// An empty range sitting at `pos`.
    pub fn at(pos: usize) -> (r: StringRange)
        ensures
            r.start == pos,
            r.end == pos,
    {
        StringRange::new(pos, pos)
    }

    pub fn between(start: usize, end: usize) -> (r: StringRange)
        ensures
            r.start == start,
            r.end == end,
    {
        StringRange::new(start, end)
    }

    /// The smallest range covering both `range_a` and `range_b`.
    pub fn encompassing(range_a: &StringRange, range_b: &StringRange) -> (r: StringRange)
        ensures
            r.start == min(range_a.start as int, range_b.start as int),
            r.end == max(range_a.end as int, range_b.end as int),
    {
        let start = if range_a.start <= range_b.start {
            range_a.start
        } else {
            range_b.start
        };
        let end = if range_a.end >= range_b.end {
            range_a.end
        } else {
            range_b.end
        };
        StringRange::new(start, end)
    }

    pub fn get_start(&self) -> (r: usize)
        ensures
            r == self.start,
    {
        self.start
    }

    pub fn get_end(&self) -> (r: usize)
        ensures
            r == self.end,
    {
        self.end
    }

    /// The characters of `input` that this range covers.
    pub fn get_from_string(&self, input: &str) -> (r: String)
        requires
            self.start <= self.end <= input@.len(),
        ensures
            r@ == input@.subrange(self.start as int, self.end as int),
    {
        input.substring_char(self.start, self.end).to_owned()
    }

    /// The characters of the reader's input that this range covers.
    pub fn get_from_string_reader(&self, reader: StringReader) -> (r: String)
        requires
            reader.wf(),
            self.start <= self.end <= reader.text().len(),
        ensures
            r@ == reader.text().subrange(self.start as int, self.end as int),
    {
        self.get_from_string(reader.get_string())
    }

    pub fn is_empty(&self) -> (r: bool)
        ensures
            r == (self.start == self.end),
    {
        self.start == self.end
    }

    pub fn get_length(&self) -> (r: usize)
        requires
            self.start <= self.end,
        ensures
            r == self.end - self.start,
    {
        self.end - self.start
    }
}

} // verus!
