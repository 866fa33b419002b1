use crate::error::BrigadierError;
use crate::string_reader::{string_token, unquoted_end, view_result, StringReader};
use crate::text::views_of_strings;
use vstd::prelude::*;
use vstd::string::StringExecFns;

verus! {

/// How much of the input a string argument takes.
#[derive(Debug, Clone, Copy, PartialEq, Eq, Structural)]
pub enum StringType {
    /// One unquoted word.
    Word,
    /// A quoted string, or one unquoted word.
    Quotable,
    /// All the rest of the input, as it stands.
    Greedy,
}

pub open spec fn string_examples(t: StringType) -> Seq<Seq<char>> {
    match t {
        StringType::Word => seq!["word"@, "word_with_underscores"@],
        StringType::Quotable => seq!["\"quoted phrase\""@, "word"@, "\"\""@],
        StringType::Greedy => seq!["word"@, "word with spaces"@, "\"and symbols\""@],
    }
}

impl StringType {
    pub fn get_examples(&self) -> (r: Vec<String>)
        ensures
            views_of_strings(r@) == match self {
                StringType::Word => seq!["word"@, "word_with_underscores"@],
                StringType::Quotable => seq!["\"quoted phrase\""@, "word"@, "\"\""@],
                StringType::Greedy => seq!["word"@, "word with spaces"@, "\"and symbols\""@],
            },
    {
        let r = match self {
            StringType::Word => vec![String::from_str("word"), String::from_str("word_with_underscores")],
            StringType::Quotable => vec![
                String::from_str("\"quoted phrase\""),
                String::from_str("word"),
                String::from_str("\"\""),
            ],
            StringType::Greedy => vec![
                String::from_str("word"),
                String::from_str("word with spaces"),
                String::from_str("\"and symbols\""),
            ],
        };
        assert(views_of_strings(r@) =~= match self {
            StringType::Word => seq!["word"@, "word_with_underscores"@],
            StringType::Quotable => seq!["\"quoted phrase\""@, "word"@, "\"\""@],
            StringType::Greedy => seq!["word"@, "word with spaces"@, "\"and symbols\""@],
        });
        r
    }
}

/// What reading a string of type `t` at `p` in `s` gives, and the cursor afterwards.
pub open spec fn string_outcome(t: StringType, s: Seq<char>, p: int) -> (Result<Seq<char>, BrigadierError>, int) {
    match t {
        StringType::Word => (Ok(s.subrange(p, unquoted_end(s, p))), unquoted_end(s, p)),
        StringType::Quotable => string_token(s, p),
        StringType::Greedy => (Ok(s.subrange(p, s.len() as int)), s.len() as int),
    }
}

/// Strings, read as their `StringType` says.
#[derive(Debug, Clone, Copy, PartialEq, Eq, Structural)]
pub struct StringArgumentType {
    pub string_type: StringType,
}

impl StringArgumentType {
    pub fn new(string_type: StringType) -> (r: StringArgumentType)
        ensures
            r.string_type == string_type,
    {
        StringArgumentType { string_type }
    }

    pub fn get_type(&self) -> (r: &StringType)
        ensures
            *r == self.string_type,
    {
        &self.string_type
    }

    pub fn parse(&self, reader: &mut StringReader) -> (r: Result<String, BrigadierError>)
        requires
            old(reader).wf(),
        ensures
            view_result(r) == string_outcome(self.string_type, old(reader).text(), old(reader).pos()).0,
            final(reader).moved(old(reader), string_outcome(self.string_type, old(reader).text(), old(reader).pos()).1),
            ({
                let s = old(reader).text();
                let p = old(reader).pos();
                match self.string_type {
                    StringType::Word => view_result(r) == Ok::<Seq<char>, BrigadierError>(
                        s.subrange(p, unquoted_end(s, p)),
                    ) && final(reader).moved(old(reader), unquoted_end(s, p)),
                    StringType::Quotable => view_result(r) == string_token(s, p).0
                        && final(reader).moved(old(reader), string_token(s, p).1),
                    StringType::Greedy => view_result(r) == Ok::<Seq<char>, BrigadierError>(
                        s.subrange(p, s.len() as int),
                    ) && final(reader).moved(old(reader), s.len() as int),
                }
            }),
    {
        match self.string_type {
            StringType::Word => reader.read_unqoted_string(),
            StringType::Quotable => reader.read_string(),
            StringType::Greedy => {
                let text = reader.get_remaining().to_owned();
                let total_length = reader.get_total_length();
                reader.set_cursor(total_length);
                Ok(text)
            },
        }
    }

    pub fn get_examples(&self) -> (r: Vec<String>)
        ensures
            views_of_strings(r@) == match self.string_type {
                StringType::Word => seq!["word"@, "word_with_underscores"@],
                StringType::Quotable => seq!["\"quoted phrase\""@, "word"@, "\"\""@],
                StringType::Greedy => seq!["word"@, "word with spaces"@, "\"and symbols\""@],
            },
    {
        self.string_type.get_examples()
    }
}

} // verus!
