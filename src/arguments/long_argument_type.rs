use crate::error::BrigadierError;
use crate::string_reader::{decimal_in, number_end, StringReader};
use crate::text::views_of_strings;
use vstd::prelude::*;
use vstd::string::StringExecFns;

verus! {

/// What reading a value of `t` at `p` in `s` gives, and the cursor afterwards.
pub open spec fn long_outcome(t: LongArgumentType, s: Seq<char>, p: int) -> (Result<i64, BrigadierError>, int) {
    let end = number_end(s, p);
    let tok = s.subrange(p, end);
    if tok.len() == 0 {
        (Err(BrigadierError::ExpectedLong), p)
    } else {
        match decimal_in(tok, i64::MIN as int, i64::MAX as int) {
            None => (Err(BrigadierError::InvalidLong), p),
            Some(v) => if v < t.min {
                (Err(BrigadierError::LongTooLow { result: v as i64, min: t.min }), p)
            } else if v > t.max {
                (Err(BrigadierError::LongTooHigh { result: v as i64, max: t.max }), p)
            } else {
                (Ok(v as i64), end)
            },
        }
    }
}

/// 64-bit integers within inclusive bounds.
#[derive(Debug, Clone, Copy, PartialEq, Eq, Structural)]
pub struct LongArgumentType {
    pub min: i64,
    pub max: i64,
}

impl LongArgumentType {
    /// No bounds beyond those of `i64`.
    pub fn new() -> (r: LongArgumentType)
        ensures
            r.min == i64::MIN && r.max == i64::MAX,
    {
        LongArgumentType { min: i64::MIN, max: i64::MAX }
    }

    pub fn with_min(self, min: i64) -> (r: LongArgumentType)
        ensures
            r.min == min && r.max == self.max,
    {
        LongArgumentType { min, ..self }
    }

    pub fn with_range(self, min: i64, max: i64) -> (r: LongArgumentType)
        ensures
            r.min == min && r.max == max,
    {
        LongArgumentType { min, max }
    }

    /// Reads a long integer and checks it against the bounds. Out of bounds, the
    /// cursor goes back to where the value began.
    pub fn parse(&self, reader: &mut StringReader) -> (r: Result<i64, BrigadierError>)
        requires
            old(reader).wf(),
        ensures
            r == long_outcome(*self, old(reader).text(), old(reader).pos()).0,
            final(reader).pos() == long_outcome(*self, old(reader).text(), old(reader).pos()).1,
            ({
                let s = old(reader).text();
                let p = old(reader).pos();
                let end = number_end(s, p);
                let tok = s.subrange(p, end);
                &&& tok.len() == 0 ==> r == Err::<i64, BrigadierError>(BrigadierError::ExpectedLong)
                    && final(reader).moved(old(reader), p)
                &&& tok.len() > 0 && decimal_in(tok, i64::MIN as int, i64::MAX as int) is None
                    ==> r == Err::<i64, BrigadierError>(BrigadierError::InvalidLong)
                    && final(reader).moved(old(reader), p)
                &&& decimal_in(tok, i64::MIN as int, i64::MAX as int) matches Some(v) ==> if v
                    < self.min {
                    r == Err::<i64, BrigadierError>(
                        BrigadierError::LongTooLow { result: v as i64, min: self.min },
                    ) && final(reader).moved(old(reader), p)
                } else if v > self.max {
                    r == Err::<i64, BrigadierError>(
                        BrigadierError::LongTooHigh { result: v as i64, max: self.max },
                    ) && final(reader).moved(old(reader), p)
                } else {
                    r == Ok::<i64, BrigadierError>(v as i64) && final(reader).moved(old(reader), end)
                }
            }),
    {
        let cursor = reader.get_cursor();
        let result = match reader.read_long() {
            Ok(v) => v,
            Err(e) => {
                return Err(e);
            },
        };
        if result < self.min {
            reader.set_cursor(cursor);
            return Err(BrigadierError::LongTooLow { result, min: self.min });
        } else if result > self.max {
            reader.set_cursor(cursor);
            return Err(BrigadierError::LongTooHigh { result, max: self.max });
        }
        Ok(result)
    }

    pub fn get_examples(&self) -> (r: Vec<String>)
        ensures
            views_of_strings(r@) == seq!["0"@, "123"@, "-123"@],
    {
        let r = vec![String::from_str("0"), String::from_str("123"), String::from_str("-123")];
        assert(views_of_strings(r@) =~= seq!["0"@, "123"@, "-123"@]);
        r
    }
}

} // verus!
