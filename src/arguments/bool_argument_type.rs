use crate::error::BrigadierError;
use crate::string_reader::{boolean_token, false_word, true_word, StringReader};
use crate::suggestion::suggestions::{merged_from, Suggestions};
use crate::suggestion::suggestions_builder::{SuggestionsBuilder, SuggestionsBuilderView};
use crate::text::{lower_of, starts_with, views_of_strings};
use vstd::prelude::*;
use vstd::string::StringExecFns;

verus! {

/// `b` after the words `true` and `false` were offered for what it has typed,
/// each when the lowercased typed text is a prefix of it.
pub open spec fn boolean_offers(b: SuggestionsBuilderView) -> SuggestionsBuilderView {
    let typed = lower_of(b.remaining());
    let b1 = if typed.is_prefix_of(true_word()) {
        b.suggested(true_word(), None)
    } else {
        b
    };
    if typed.is_prefix_of(false_word()) {
        b1.suggested(false_word(), None)
    } else {
        b1
    }
}

/// The booleans `true` and `false`.
#[derive(Debug, Clone, Copy, PartialEq, Eq, Structural)]
pub struct BoolArgumentType;

impl BoolArgumentType {
    pub fn parse(&self, reader: &mut StringReader) -> (r: Result<bool, BrigadierError>)
        requires
            old(reader).wf(),
        ensures
            r == boolean_token(old(reader).text(), old(reader).pos()).0,
            final(reader).moved(old(reader), boolean_token(old(reader).text(), old(reader).pos()).1),
    {
        reader.read_boolean()
    }

    /// Offers `true` and `false` where they extend what was typed, ignoring case.
    pub fn list_suggestions(&self, builder: &mut SuggestionsBuilder) -> (r: Suggestions)
        requires
            old(builder).wf(),
        ensures
            final(builder).wf(),
            final(builder)@ == boolean_offers(old(builder)@),
            merged_from(final(builder)@.input, final(builder)@.result, r@),
    {
        proof {
            reveal_strlit("true");
            reveal_strlit("false");
            assert("true"@ =~= true_word());
            assert("false"@ =~= false_word());
        }
        if starts_with("true", builder.get_remaining_lower_case()) {
            builder.suggest("true");
        }
        if starts_with("false", builder.get_remaining_lower_case()) {
            builder.suggest("false");
        }
        builder.build()
    }

    pub fn get_examples(&self) -> (r: Vec<String>)
        ensures
            views_of_strings(r@) == seq!["true"@, "false"@],
    {
        let r = vec![String::from_str("true"), String::from_str("false")];
        assert(views_of_strings(r@) =~= seq!["true"@, "false"@]);
        r
    }
}

} // verus!
