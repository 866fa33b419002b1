use crate::context::string_range::StringRange;
use vstd::prelude::*;

verus! {

/// What a suggestion is: the range it replaces, its text and its tooltip.
pub ghost struct SuggestionView {
    pub range: StringRange,
    pub text: Seq<char>,
    pub tooltip: Option<Seq<char>>,
}

/// `input` with `range` replaced by `text`.
pub open spec fn spliced(input: Seq<char>, range: StringRange, text: Seq<char>) -> Seq<char> {
    input.subrange(0, range.start as int) + text + input.subrange(range.end as int, input.len() as int)
}

/// `range` lies within a text of length `len`.
pub open spec fn range_within(range: StringRange, len: int) -> bool {
    range.start <= range.end && range.end <= len
}

/// `outer` covers `inner`.
pub open spec fn range_covers(outer: StringRange, inner: StringRange) -> bool {
    outer.start <= inner.start && inner.start <= inner.end && inner.end <= outer.end
}

/// The text of `s` grown to cover `range`, with the characters of `command`
/// that lie in `range` but outside the suggestion's own range.
#[verifier::opaque]
pub open spec fn expanded_text(command: Seq<char>, s: SuggestionView, range: StringRange) -> Seq<char> {
    command.subrange(range.start as int, s.range.start as int) + s.text + command.subrange(
        s.range.end as int,
        range.end as int,
    )
}

#[verifier::opaque]
pub open spec fn expanded(command: Seq<char>, s: SuggestionView, range: StringRange) -> SuggestionView {
    SuggestionView { range, text: expanded_text(command, s, range), tooltip: s.tooltip }
}

pub proof fn lemma_expanded(command: Seq<char>, s: SuggestionView, range: StringRange)
    ensures
        expanded(command, s, range) == (SuggestionView {
            range,
            text: expanded_text(command, s, range),
            tooltip: s.tooltip,
        }),
{
    reveal(expanded);
}

pub open spec fn view_tooltip(t: Option<String>) -> Option<Seq<char>> {
    match t {
        Some(s) => Some(s@),
        None => None,
    }
}

/// A replacement for one range of an input line.
#[derive(Debug, Clone)]
pub struct Suggestion {
    range: StringRange,
    text: String,
    tooltip: Option<String>,
}

impl View for Suggestion {
    type V = SuggestionView;

    closed spec fn view(&self) -> SuggestionView {
        SuggestionView { range: self.range, text: self.text@, tooltip: view_tooltip(self.tooltip) }
    }
}

fn copy_tooltip(t: &Option<String>) -> (r: Option<String>)
    ensures
        view_tooltip(r) == view_tooltip(*t),
{
    match t {
        Some(s) => Some(s.clone()),
        None => None,
    }
}

impl Suggestion {
    pub fn new(range: StringRange, text: String) -> (r: Suggestion)
        ensures
            r@ == (SuggestionView { range, text: text@, tooltip: None }),
    {
        Suggestion { range, text, tooltip: None }
    }

    pub fn with_tooltip(self, tooltip: String) -> (r: Suggestion)
        ensures
            r@ == (SuggestionView { tooltip: Some(tooltip@), ..self@ }),
    {
        Suggestion { range: self.range, text: self.text, tooltip: Some(tooltip) }
    }

    pub fn get_range(&self) -> (r: &StringRange)
        ensures
            *r == self@.range,
    {
        &self.range
    }

    pub fn get_text(&self) -> (r: &str)
        ensures
            r@ == self@.text,
    {
        self.text.as_str()
    }

    pub fn get_tooltip(&self) -> (r: Option<&str>)
        ensures
            match r {
                Some(t) => self@.tooltip == Some(t@),
                None => self@.tooltip is None,
            },
    {
        match &self.tooltip {
            Some(t) => Some(t.as_str()),
            None => None,
        }
    }

    /// A suggestion equal to this one.
    pub fn duplicate(&self) -> (r: Suggestion)
        ensures
            r@ == self@,
    {
        Suggestion { range: self.range, text: self.text.clone(), tooltip: copy_tooltip(&self.tooltip) }
    }

    /// The input line with this suggestion's range replaced by its text.
    pub fn apply(&self, input: &str) -> (r: String)
        requires
            range_within(self@.range, input@.len() as int),
        ensures
            r@ == spliced(input@, self@.range, self@.text),
    {
        let len = input.unicode_len();
        if self.range.start == 0 && self.range.end == len {
            proof {
                assert(spliced(input@, self@.range, self@.text) =~= self@.text);
            }
            return self.text.clone();
        }
        let mut result = String::new();
        if self.range.start > 0 {
            result.append(input.substring_char(0, self.range.start));
        }
        result.append(self.text.as_str());
        if self.range.end < len {
            result.append(input.substring_char(self.range.end, len));
        }
        proof {
            assert(result@ =~= spliced(input@, self@.range, self@.text));
        }
        result
    }

    /// This suggestion grown to cover `range` of `command`: the characters of
    /// `range` on either side of its own range are taken from `command`.
    pub fn expand(&self, command: &str, range: StringRange) -> (r: Suggestion)
        requires
            range_covers(range, self@.range),
            range.end <= command@.len(),
        ensures
            r@ == expanded(command@, self@, range),
    {
        if range == self.range {
            proof {
                reveal(expanded_text);
                assert(expanded_text(command@, self@, range) =~= self@.text);
            }
            proof {
                lemma_expanded(command@, self@, range);
            }
            return self.duplicate();
        }
        let mut result = String::new();
        if range.start < self.range.start {
            result.append(command.substring_char(range.start, self.range.start));
        }
        result.append(self.text.as_str());
        if range.end > self.range.end {
            result.append(command.substring_char(self.range.end, range.end));
        }
        proof {
            reveal(expanded_text);
            assert(result@ =~= expanded_text(command@, self@, range));
            lemma_expanded(command@, self@, range);
        }
        Suggestion { range, text: result, tooltip: copy_tooltip(&self.tooltip) }
    }
}

impl PartialEq for Suggestion {
    fn eq(&self, other: &Suggestion) -> (r: bool)
        ensures
            r == (self@.range == other@.range && self@.text == other@.text),
    {
        self.range == other.range && self.text == other.text
    }
}

impl vstd::std_specs::cmp::PartialEqSpecImpl for Suggestion {
    open spec fn obeys_eq_spec() -> bool {
        true
    }

    open spec fn eq_spec(&self, other: &Suggestion) -> bool {
        self@.range == other@.range && self@.text == other@.text
    }
}

} // verus!
