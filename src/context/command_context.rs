use crate::arguments::{BoolArgumentType, IntegerArgumentType, LongArgumentType, StringArgumentType};
use crate::context::parsed_argument::ParsedArgument;
use crate::context::string_range::StringRange;
use crate::error::BrigadierError;
use crate::arguments::integer_argument_type::integer_outcome;
use crate::arguments::long_argument_type::long_outcome;
use crate::arguments::string_argument_type::{string_examples, string_outcome};
use crate::arguments::bool_argument_type::boolean_offers;
use crate::suggestion::suggestions::{merged_from, Suggestions};
use crate::suggestion::suggestions_builder::SuggestionsBuilder;
use crate::text::views_of_strings;
use crate::string_reader::{boolean_token, StringReader};
use vstd::prelude::*;

verus! {

/// The value kinds an argument node can take.
#[derive(Debug, Clone, Copy, PartialEq, Eq, Structural)]
pub enum ArgumentType {
    Bool(BoolArgumentType),
    Integer(IntegerArgumentType),
    Long(LongArgumentType),
    String(StringArgumentType),
}

/// A value read by an `ArgumentType`.
#[derive(Debug, Clone, PartialEq)]
pub enum ParsedValue {
    Bool(bool),
    Integer(i32),
    Long(i64),
    String(String),
}

/// Whether reading a value of `t` at `p` in `s` succeeds.
pub open spec fn outcome_ok(t: ArgumentType, s: Seq<char>, p: int) -> bool {
    match t {
        ArgumentType::Bool(_) => boolean_token(s, p).0 is Ok,
        ArgumentType::Integer(i) => integer_outcome(i, s, p).0 is Ok,
        ArgumentType::Long(l) => long_outcome(l, s, p).0 is Ok,
        ArgumentType::String(st) => string_outcome(st.string_type, s, p).0 is Ok,
    }
}

/// Where the cursor stands after reading a value of `t` at `p` in `s`.
pub open spec fn outcome_end(t: ArgumentType, s: Seq<char>, p: int) -> int {
    match t {
        ArgumentType::Bool(_) => boolean_token(s, p).1,
        ArgumentType::Integer(i) => integer_outcome(i, s, p).1,
        ArgumentType::Long(l) => long_outcome(l, s, p).1,
        ArgumentType::String(st) => string_outcome(st.string_type, s, p).1,
    }
}

/// The error that reading a value of `t` at `p` in `s` fails with, when it fails.
pub open spec fn outcome_error(t: ArgumentType, s: Seq<char>, p: int) -> BrigadierError {
    match t {
        ArgumentType::Bool(_) => boolean_token(s, p).0->Err_0,
        ArgumentType::Integer(i) => integer_outcome(i, s, p).0->Err_0,
        ArgumentType::Long(l) => long_outcome(l, s, p).0->Err_0,
        ArgumentType::String(st) => string_outcome(st.string_type, s, p).0->Err_0,
    }
}

/// Reading a value never moves the cursor back nor past the end.
pub proof fn lemma_outcome_end(t: ArgumentType, s: Seq<char>, p: int)
    requires
        0 <= p <= s.len(),
    ensures
        p <= outcome_end(t, s, p) <= s.len(),
{
    crate::string_reader::lemma_number_end(s, p);
    crate::string_reader::lemma_unquoted_end(s, p);
    crate::string_reader::lemma_token_ends(s, p);
}

/// `r` is what reading a value of `t` at `p` in `s` gives.
pub open spec fn outcome_is(t: ArgumentType, s: Seq<char>, p: int, r: Result<ParsedValue, BrigadierError>) -> bool {
    match t {
        ArgumentType::Bool(_) => match boolean_token(s, p).0 {
            Ok(b) => r == Ok::<ParsedValue, BrigadierError>(ParsedValue::Bool(b)),
            Err(e) => r == Err::<ParsedValue, BrigadierError>(e),
        },
        ArgumentType::Integer(i) => match integer_outcome(i, s, p).0 {
            Ok(v) => r == Ok::<ParsedValue, BrigadierError>(ParsedValue::Integer(v)),
            Err(e) => r == Err::<ParsedValue, BrigadierError>(e),
        },
        ArgumentType::Long(l) => match long_outcome(l, s, p).0 {
            Ok(v) => r == Ok::<ParsedValue, BrigadierError>(ParsedValue::Long(v)),
            Err(e) => r == Err::<ParsedValue, BrigadierError>(e),
        },
        ArgumentType::String(st) => match string_outcome(st.string_type, s, p).0 {
            Ok(v) => r matches Ok(ParsedValue::String(x)) && x@ == v,
            Err(e) => r == Err::<ParsedValue, BrigadierError>(e),
        },
    }
}

/// A whole token of `s` is a value of `t`: reading succeeds and stops at the
/// end or before a separator.
pub open spec fn accepts(t: ArgumentType, s: Seq<char>) -> bool {
    let end = outcome_end(t, s, 0);
    outcome_ok(t, s, 0) && (end == s.len() || (0 <= end < s.len() && s[end] == ' '))
}

/// The sample inputs of `t`.
pub open spec fn argument_examples(t: ArgumentType) -> Seq<Seq<char>> {
    match t {
        ArgumentType::Bool(_) => seq!["true"@, "false"@],
        ArgumentType::Integer(_) => seq!["0"@, "123"@, "-123"@],
        ArgumentType::Long(_) => seq!["0"@, "123"@, "-123"@],
        ArgumentType::String(st) => string_examples(st.string_type),
    }
}

impl ArgumentType {
    /// Reads one value of this kind at the cursor.
    pub fn parse(&self, reader: &mut StringReader) -> (r: Result<ParsedValue, BrigadierError>)
        requires
            old(reader).wf(),
        ensures
            final(reader).wf(),
            final(reader).text() == old(reader).text(),
            r is Ok ==> old(reader).pos() <= final(reader).pos(),
            outcome_is(*self, old(reader).text(), old(reader).pos(), r),
            final(reader).pos() == outcome_end(*self, old(reader).text(), old(reader).pos()),
            r is Ok <==> outcome_ok(*self, old(reader).text(), old(reader).pos()),
            (r is Ok && self is Integer) ==> r->Ok_0 is Integer,
            (r is Ok && self is Long) ==> r->Ok_0 is Long,
            (r is Ok && self is Bool) ==> r->Ok_0 is Bool,
            (r is Ok && self is String) ==> r->Ok_0 is String,
    {
        proof {
            crate::string_reader::lemma_number_end(old(reader).text(), old(reader).pos());
            crate::string_reader::lemma_unquoted_end(old(reader).text(), old(reader).pos());
            crate::string_reader::lemma_token_ends(old(reader).text(), old(reader).pos());
        }
        match self {
            ArgumentType::Bool(t) => match t.parse(reader) {
                Ok(v) => Ok(ParsedValue::Bool(v)),
                Err(e) => Err(e),
            },
            ArgumentType::Integer(t) => match t.parse(reader) {
                Ok(v) => Ok(ParsedValue::Integer(v)),
                Err(e) => Err(e),
            },
            ArgumentType::Long(t) => match t.parse(reader) {
                Ok(v) => Ok(ParsedValue::Long(v)),
                Err(e) => Err(e),
            },
            ArgumentType::String(t) => match t.parse(reader) {
                Ok(v) => Ok(ParsedValue::String(v)),
                Err(e) => Err(e),
            },
        }
    }

    /// Completions for a value of this kind: booleans offer `true` and
    /// `false`; the other kinds offer nothing.
    pub fn list_suggestions(&self, builder: &mut SuggestionsBuilder) -> (r: Suggestions)
        requires
            old(builder).wf(),
        ensures
            final(builder).wf(),
            self is Bool ==> final(builder)@ == boolean_offers(old(builder)@) && merged_from(
                final(builder)@.input,
                final(builder)@.result,
                r@,
            ),
            !(self is Bool) ==> *final(builder) == *old(builder) && r@.list.len() == 0
                && r@.range == StringRange::spec_new(0, 0),
    {
        match self {
            ArgumentType::Bool(t) => t.list_suggestions(builder),
            _ => Suggestions::empty(),
        }
    }

    pub fn get_examples(&self) -> (r: Vec<String>)
        ensures
            views_of_strings(r@) == argument_examples(*self),
    {
        match self {
            ArgumentType::Bool(t) => t.get_examples(),
            ArgumentType::Integer(t) => t.get_examples(),
            ArgumentType::Long(t) => t.get_examples(),
            ArgumentType::String(t) => t.get_examples(),
        }
    }
}

/// The parse state of one matched path: consumed range, bound arguments,
/// visited nodes, the command found at its end and whether it forks.
#[derive(Debug)]
pub struct CommandContext {
    pub range: StringRange,
    pub arguments: Vec<(String, ParsedArgument)>,
    pub nodes: Vec<usize>,
    pub command: Option<u64>,
    pub forks: bool,
}

impl CommandContext {
    /// A context that begins at `start`, with nothing bound.
    pub fn new(start: usize, forks: bool) -> (r: CommandContext)
        ensures
            r.range == StringRange::spec_new(start, start),
            r.arguments@.len() == 0,
            r.nodes@.len() == 0,
            r.command is None,
            r.forks == forks,
    {
        CommandContext {
            range: StringRange::at(start),
            arguments: Vec::new(),
            nodes: Vec::new(),
            command: None,
            forks,
        }
    }

    /// The value bound to argument `name`, if any.
    pub fn get_argument(&self, name: &str) -> (r: Option<&ParsedArgument>)
        ensures
            r is Some ==> exists|i: int| 0 <= i < self.arguments@.len() && self.arguments@[i].0@ == name@
                && self.arguments@[i].1 == *r->Some_0,
            r is None ==> forall|i: int| 0 <= i < self.arguments@.len() ==> self.arguments@[i].0@ != name@,
    {
        let n = self.arguments.len();
        let mut i: usize = 0;
        while i < n
            invariant
                n == self.arguments@.len(),
                i <= n,
                forall|k: int| 0 <= k < i ==> self.arguments@[k].0@ != name@,
            decreases n - i,
        {
            if crate::text::same_text(self.arguments[i].0.as_str(), name) {
                return Some(&self.arguments[i].1);
            }
            i = i + 1;
        }
        None
    }
}

} // verus!
