use crate::context::string_range::StringRange;
use crate::suggestion::suggestion::{Suggestion, SuggestionView};
use crate::suggestion::suggestions::{all_within, merged_from, views, Suggestions};
use crate::text::{lower_of, lowercase, same_text};
use vstd::prelude::*;

verus! {

pub ghost struct SuggestionsBuilderView {
    pub input: Seq<char>,
    pub start: int,
    pub result: Seq<SuggestionView>,
}

impl SuggestionsBuilderView {
    /// The text typed from the start offset on.
    pub open spec fn remaining(self) -> Seq<char> {
        self.input.subrange(self.start, self.input.len() as int)
    }

    /// The range every suggestion of this builder replaces.
    pub open spec fn target(self) -> StringRange {
        StringRange { start: self.start as usize, end: self.input.len() as usize }
    }

    /// This builder after `text` was suggested: unchanged when `text` is what
    /// was typed already, else with one more entry.
    pub open spec fn suggested(self, text: Seq<char>, tooltip: Option<Seq<char>>) -> SuggestionsBuilderView {
        if text == self.remaining() {
            self
        } else {
            SuggestionsBuilderView {
                result: self.result.push(SuggestionView { range: self.target(), text, tooltip }),
                ..self
            }
        }
    }
}

/// Collects suggestions that replace the input from one offset to its end.
#[derive(Debug, PartialEq)]
pub struct SuggestionsBuilder {
    input: String,
    input_lower_case: String,
    start: usize,
    remaining: String,
    remaining_lower_case: String,
    result: Vec<Suggestion>,
}

impl View for SuggestionsBuilder {
    type V = SuggestionsBuilderView;

    closed spec fn view(&self) -> SuggestionsBuilderView {
        SuggestionsBuilderView { input: self.input@, start: self.start as int, result: views(self.result@) }
    }
}

impl SuggestionsBuilder {
    pub closed spec fn wf(&self) -> bool {
        &&& self.start <= self.input@.len()
        &&& self.remaining@ == self@.remaining()
        &&& self.input_lower_case@ == lower_of(self.input@)
        &&& self.remaining_lower_case@ == lower_of(self@.remaining())
        &&& all_within(self@.result, self.input@.len() as int)
    }

    /// The collected suggestions all lie within the input.
    pub proof fn lemma_within(&self)
        requires
            self.wf(),
        ensures
            all_within(self@.result, self@.input.len() as int),
            self@.start <= self@.input.len(),
    {
    }

    pub fn new(input: &str, start: usize) -> (r: SuggestionsBuilder)
        requires
            start <= input@.len(),
        ensures
            r.wf(),
            r@ == (SuggestionsBuilderView { input: input@, start: start as int, result: Seq::empty() }),
    {
        let len = input.unicode_len();
        let remaining = input.substring_char(start, len);
        let r = SuggestionsBuilder {
            input: input.to_owned(),
            input_lower_case: lowercase(input),
            start,
            remaining: remaining.to_owned(),
            remaining_lower_case: lowercase(remaining),
            result: Vec::new(),
        };
        assert(r@.result =~= Seq::<SuggestionView>::empty());
        r
    }

    pub fn get_input(&self) -> (r: &str)
        ensures
            r@ == self@.input,
    {
        self.input.as_str()
    }

    pub fn get_start(&self) -> (r: usize)
        ensures
            r == self@.start,
    {
        self.start
    }

    pub fn get_remaining(&self) -> (r: &str)
        requires
            self.wf(),
        ensures
            r@ == self@.remaining(),
    {
        self.remaining.as_str()
    }

    pub fn get_remaining_lower_case(&self) -> (r: &str)
        requires
            self.wf(),
        ensures
            r@ == lower_of(self@.remaining()),
    {
        self.remaining_lower_case.as_str()
    }

    /// The collected suggestions, merged as `Suggestions::create` does.
    pub fn build(&self) -> (r: Suggestions)
        requires
            self.wf(),
        ensures
            merged_from(self@.input, self@.result, r@),
    {
        let n = self.result.len();
        let mut copy: Vec<Suggestion> = Vec::new();
        let mut i: usize = 0;
        while i < n
            invariant
                n == self.result.len(),
                i <= n,
                views(copy@) == views(self.result@).subrange(0, i as int),
            decreases n - i,
        {
            let d = self.result[i].duplicate();
            let ghost before = views(copy@);
            copy.push(d);
            assert(views(copy@) =~= before.push(d@));
            assert(views(copy@) =~= views(self.result@).subrange(0, i + 1));
            i = i + 1;
        }
        assert(views(copy@) =~= views(self.result@));
        Suggestions::create(self.input.as_str(), copy)
    }

    /// Suggests `text` over the rest of the input, unless it is what was typed.
    pub fn suggest(&mut self, text: &str) -> (r: &mut SuggestionsBuilder)
        requires
            old(self).wf(),
        ensures
            r.wf(),
            (*r)@ == old(self)@.suggested(text@, None),
            *final(self) == *final(r),
    {
        if same_text(text, self.remaining.as_str()) {
            return self;
        }
        let s = Suggestion::new(StringRange::between(self.start, self.input.unicode_len()), text.to_owned());
        self.result.push(s);
        assert(self@.result =~= old(self)@.result.push(s@));
        self
    }

    /// Suggests `text` with a tooltip, unless it is what was typed.
    pub fn suggest_with_tooltip(&mut self, text: &str, tooltip: &str) -> (r: &mut SuggestionsBuilder)
        requires
            old(self).wf(),
        ensures
            r.wf(),
            (*r)@ == old(self)@.suggested(text@, Some(tooltip@)),
            *final(self) == *final(r),
    {
        if same_text(text, self.remaining.as_str()) {
            return self;
        }
        let s = Suggestion::new(StringRange::between(self.start, self.input.unicode_len()), text.to_owned()).with_tooltip(
            tooltip.to_owned(),
        );
        self.result.push(s);
        assert(self@.result =~= old(self)@.result.push(s@));
        self
    }

    /// Takes over the suggestions that `other` collected.
    pub fn add(&mut self, other: SuggestionsBuilder) -> (r: &mut SuggestionsBuilder)
        requires
            old(self).wf(),
            all_within(other@.result, old(self)@.input.len() as int),
        ensures
            r.wf(),
            (*r)@ == (SuggestionsBuilderView { result: old(self)@.result + other@.result, ..old(self)@ }),
            *final(self) == *final(r),
    {
        let mut other = other;
        let ghost theirs = other@.result;
        self.result.append(&mut other.result);
        assert(self@.result =~= old(self)@.result + theirs);
        self
    }

    /// A fresh builder over the same input, starting at `start`.
    pub fn create_offset(&self, start: usize) -> (r: SuggestionsBuilder)
        requires
            start <= self@.input.len(),
        ensures
            r.wf(),
            r@ == (SuggestionsBuilderView { input: self@.input, start: start as int, result: Seq::empty() }),
    {
        SuggestionsBuilder::new(self.input.as_str(), start)
    }

    /// A fresh builder over the same input and start, with nothing suggested.
    pub fn restart(&self) -> (r: SuggestionsBuilder)
        requires
            self.wf(),
        ensures
            r.wf(),
            r@ == (SuggestionsBuilderView { result: Seq::empty(), ..self@ }),
    {
        self.create_offset(self.start)
    }
}

} // verus!
