use crate::error::BrigadierError;
use crate::string_reader::{decimal_in, number_end, StringReader};
use crate::text::views_of_strings;
use vstd::prelude::*;
use vstd::string::StringExecFns;

verus! {

/// What reading a value of `t` at `p` in `s` gives, and the cursor afterwards.
pub open spec fn integer_outcome(t: IntegerArgumentType, s: Seq<char>, p: int) -> (Result<i32, BrigadierError>, int) {
    let end = number_end(s, p);
    let tok = s.subrange(p, end);
    if tok.len() == 0 {
        (Err(BrigadierError::ExpectedInt), p)
    } else {
        match decimal_in(tok, i32::MIN as int, i32::MAX as int) {
            None => (Err(BrigadierError::InvalidInt), p),
            Some(v) => if v < t.min {
                (Err(BrigadierError::IntegerTooLow { result: v as i32, min: t.min }), p)
            } else if v > t.max {
                (Err(BrigadierError::IntegerTooHigh { result: v as i32, max: t.max }), p)
            } else {
                (Ok(v as i32), end)
            },
        }
    }
}

/// 32-bit integers within inclusive bounds.
#[derive(Debug, Clone, Copy, PartialEq, Eq, Structural)]
pub struct IntegerArgumentType {
    pub min: i32,
    pub max: i32,
}

impl IntegerArgumentType {
    /// No bounds beyond those of `i32`.
    pub fn new() -> (r: IntegerArgumentType)
        ensures
            r.min == i32::MIN && r.max == i32::MAX,
    {
        IntegerArgumentType { min: i32::MIN, max: i32::MAX }
    }

    pub fn with_min(self, min: i32) -> (r: IntegerArgumentType)
        ensures
            r.min == min && r.max == self.max,
    {
        IntegerArgumentType { min, ..self }
    }

    pub fn with_range(self, min: i32, max: i32) -> (r: IntegerArgumentType)
        ensures
            r.min == min && r.max == max,
    {
        IntegerArgumentType { min, max }
    }

    /// Reads an integer and checks it against the bounds. Out of bounds, the
    /// cursor goes back to where the value began.
    pub fn parse(&self, reader: &mut StringReader) -> (r: Result<i32, BrigadierError>)
        requires
            old(reader).wf(),
        ensures
            r == integer_outcome(*self, old(reader).text(), old(reader).pos()).0,
            final(reader).pos() == integer_outcome(*self, old(reader).text(), old(reader).pos()).1,
            ({
                let s = old(reader).text();
                let p = old(reader).pos();
                let end = number_end(s, p);
                let tok = s.subrange(p, end);
                &&& tok.len() == 0 ==> r == Err::<i32, BrigadierError>(BrigadierError::ExpectedInt)
                    && final(reader).moved(old(reader), p)
                &&& tok.len() > 0 && decimal_in(tok, i32::MIN as int, i32::MAX as int) is None
                    ==> r == Err::<i32, BrigadierError>(BrigadierError::InvalidInt)
                    && final(reader).moved(old(reader), p)
                &&& decimal_in(tok, i32::MIN as int, i32::MAX as int) matches Some(v) ==> if v
                    < self.min {
                    r == Err::<i32, BrigadierError>(
                        BrigadierError::IntegerTooLow { result: v as i32, min: self.min },
                    ) && final(reader).moved(old(reader), p)
                } else if v > self.max {
                    r == Err::<i32, BrigadierError>(
                        BrigadierError::IntegerTooHigh { result: v as i32, max: self.max },
                    ) && final(reader).moved(old(reader), p)
                } else {
                    r == Ok::<i32, BrigadierError>(v as i32) && final(reader).moved(old(reader), end)
                }
            }),
    {
        let cursor = reader.get_cursor();
        let result = match reader.read_int() {
            Ok(v) => v,
            Err(e) => {
                return Err(e);
            },
        };
        if result < self.min {
            reader.set_cursor(cursor);
            return Err(BrigadierError::IntegerTooLow { result, min: self.min });
        } else if result > self.max {
            reader.set_cursor(cursor);
            return Err(BrigadierError::IntegerTooHigh { result, max: self.max });
        }
        Ok(result)
    }

    pub fn get_examples(&self) -> (r: Vec<String>)
        ensures
            views_of_strings(r@) == seq!["0"@, "123"@, "-123"@],
    {
        let r = vec![String::from_str("0"), String::from_str("123"), String::from_str("-123")];
        assert(views_of_strings(r@) =~= seq!["0"@, "123"@, "-123"@]);
        r
    }
}

} // verus!
