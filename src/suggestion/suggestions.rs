use crate::context::string_range::StringRange;
use crate::suggestion::suggestion::{expanded, expanded_text, lemma_expanded, range_within, Suggestion, SuggestionView};
use crate::text::{lemma_text_lt_total, lemma_text_lt_transitive, text_less, text_lt};
use vstd::math::{max, min};
use vstd::prelude::*;

verus! {

pub ghost struct SuggestionsView {
    pub range: StringRange,
    pub list: Seq<SuggestionView>,
}

pub open spec fn views(v: Seq<Suggestion>) -> Seq<SuggestionView> {
    v.map_values(|s: Suggestion| s@)
}

/// The smallest start among the ranges of `s`.
pub open spec fn min_start(s: Seq<SuggestionView>) -> int
    decreases s.len(),
{
    if s.len() == 0 {
        0
    } else if s.len() == 1 {
        s[0].range.start as int
    } else {
        min(min_start(s.drop_last()), s.last().range.start as int)
    }
}

/// The largest end among the ranges of `s`.
pub open spec fn max_end(s: Seq<SuggestionView>) -> int
    decreases s.len(),
{
    if s.len() == 0 {
        0
    } else if s.len() == 1 {
        s[0].range.end as int
    } else {
        max(max_end(s.drop_last()), s.last().range.end as int)
    }
}

/// The smallest range covering every range of `s`.
pub open spec fn union_range(s: Seq<SuggestionView>) -> StringRange {
    StringRange { start: min_start(s) as usize, end: max_end(s) as usize }
}

/// Strictly increasing by text: each text once, in the order of `String`s.
pub open spec fn sorted_by_text(list: Seq<SuggestionView>) -> bool {
    forall|a: int, b: int| 0 <= a < b < list.len() ==> text_lt(#[trigger] list[a].text, #[trigger] list[b].text)
}

/// Every entry of `list` is an entry of `src` expanded to `range`, and
/// every text of those expanded entries occurs in `list`.
pub open spec fn same_texts(command: Seq<char>, src: Seq<SuggestionView>, range: StringRange, list: Seq<SuggestionView>) -> bool {
    &&& forall|j: int| #![trigger list[j]] 0 <= j < list.len() ==> exists|i: int| 0 <= i < src.len() && list[j] == expanded(command, src[i], range)
    &&& forall|i: int| #![trigger expanded_text(command, src[i], range)] 0 <= i < src.len() ==> exists|j: int| 0 <= j < list.len() && list[j].text == expanded_text(command, src[i], range)
}

/// The suggestions of `src` brought to one shared range, one per text, sorted by text.
pub open spec fn merged_from(command: Seq<char>, src: Seq<SuggestionView>, r: SuggestionsView) -> bool {
    if src.len() == 0 {
        r.range == StringRange { start: 0, end: 0 } && r.list.len() == 0
    } else {
        &&& r.range == union_range(src)
        &&& sorted_by_text(r.list)
        &&& same_texts(command, src, r.range, r.list)
    }
}

pub open spec fn all_within(src: Seq<SuggestionView>, len: int) -> bool {
    forall|i: int| 0 <= i < src.len() ==> range_within(#[trigger] src[i].range, len)
}

proof fn lemma_union_bounds(s: Seq<SuggestionView>, len: int)
    requires
        s.len() > 0,
        all_within(s, len),
    ensures
        0 <= min_start(s) <= max_end(s) <= len,
        forall|i: int| 0 <= i < s.len() ==> min_start(s) <= #[trigger] s[i].range.start && s[i].range.end <= max_end(s),
    decreases s.len(),
{
    if s.len() > 1 {
        let t = s.drop_last();
        lemma_union_bounds(t, len);
        assert forall|i: int| 0 <= i < s.len() implies min_start(s) <= #[trigger] s[i].range.start && s[i].range.end <= max_end(s) by {
            if i < s.len() - 1 {
                assert(s[i] == t[i]);
            }
        }
    }
}

pub open spec fn views_of(v: Seq<Suggestions>) -> Seq<SuggestionsView> {
    v.map_values(|s: Suggestions| s@)
}

/// The entries of all the lists of `input`, in order.
pub open spec fn all_entries(input: Seq<SuggestionsView>) -> Seq<SuggestionView>
    decreases input.len(),
{
    if input.len() == 0 {
        Seq::empty()
    } else {
        all_entries(input.drop_last()) + input.last().list
    }
}

/// Merged suggestions stay within the text their sources were within.
pub proof fn lemma_merged_within(command: Seq<char>, src: Seq<SuggestionView>, r: SuggestionsView, len: int)
    requires
        merged_from(command, src, r),
        all_within(src, len),
        len <= usize::MAX,
    ensures
        all_within(r.list, len),
        sorted_by_text(r.list),
{
    if src.len() > 0 {
        lemma_union_bounds(src, len);
        assert forall|j: int| 0 <= j < r.list.len() implies range_within(#[trigger] r.list[j].range, len) by {
            let i = choose|i: int| 0 <= i < src.len() && r.list[j] == expanded(command, src[i], r.range);
            lemma_expanded(command, src[i], r.range);
        }
    }
}

/// A list of suggestions sharing one range.
#[derive(Debug)]
pub struct Suggestions {
    range: StringRange,
    suggestions: Vec<Suggestion>,
}

impl View for Suggestions {
    type V = SuggestionsView;

    closed spec fn view(&self) -> SuggestionsView {
        SuggestionsView { range: self.range, list: views(self.suggestions@) }
    }
}

/// Puts `e` in its place in a list sorted by text, unless its text is already there.
fn insert_by_text(list: &mut Vec<Suggestion>, e: Suggestion)
    requires
        sorted_by_text(views(old(list)@)),
    ensures
        sorted_by_text(views(final(list)@)),
        ({
            ||| (views(final(list)@) == views(old(list)@) && exists|j: int| 0 <= j < old(list).len() && #[trigger] views(old(list)@)[j].text == e@.text)
            ||| exists|p: int| 0 <= p <= old(list).len() && views(final(list)@) == views(old(list)@).insert(p, e@)
        }),
{
    let ghost old_views = views(list@);
    let n = list.len();
    let mut p: usize = 0;
    while p < n && text_less(list[p].get_text(), e.get_text())
        invariant
            n == list.len(),
            list@ == old(list)@,
            p <= n,
            forall|k: int| 0 <= k < p ==> text_lt(#[trigger] list@[k]@.text, e@.text),
        decreases n - p,
    {
        p = p + 1;
    }
    if p < n && !text_less(e.get_text(), list[p].get_text()) {
        proof {
            if list@[p as int]@.text != e@.text {
                lemma_text_lt_total(list@[p as int]@.text, e@.text);
            }
        }
        assert(views(list@)[p as int].text == e@.text);
        return;
    }
    list.insert(p, e);
    proof {
        let nv = views(list@);
        assert(nv =~= old_views.insert(p as int, e@));
        assert forall|a: int, b: int| 0 <= a < b < nv.len() implies text_lt(#[trigger] nv[a].text, #[trigger] nv[b].text) by {
            if b < p {
                assert(nv[a] == old_views[a] && nv[b] == old_views[b]);
            } else if b == p {
                assert(nv[a] == old_views[a]);
            } else if a < p {
                assert(nv[a] == old_views[a] && nv[b] == old_views[b - 1]);
                assert(text_lt(old_views[a].text, e@.text));
                assert(text_lt(e@.text, old_views[p as int].text));
                if b - 1 > p {
                    lemma_text_lt_transitive(e@.text, old_views[p as int].text, old_views[b - 1].text);
                }
                lemma_text_lt_transitive(old_views[a].text, e@.text, old_views[b - 1].text);
            } else if a == p {
                assert(nv[b] == old_views[b - 1]);
                if b - 1 > p {
                    lemma_text_lt_transitive(e@.text, old_views[p as int].text, old_views[b - 1].text);
                }
            } else {
                assert(nv[a] == old_views[a - 1] && nv[b] == old_views[b - 1]);
            }
        }
    }
}

/// Adding a source entry whose text the list already holds keeps the list in step.
proof fn lemma_same_texts_keep(
    command: Seq<char>,
    sub: Seq<SuggestionView>,
    x: SuggestionView,
    range: StringRange,
    list: Seq<SuggestionView>,
    j0: int,
)
    requires
        same_texts(command, sub, range, list),
        0 <= j0 < list.len(),
        list[j0].text == expanded_text(command, x, range),
    ensures
        same_texts(command, sub.push(x), range, list),
{
    let sub1 = sub.push(x);
    assert forall|j: int| #![trigger list[j]] 0 <= j < list.len() implies exists|i: int| 0 <= i < sub1.len() && list[j] == expanded(command, sub1[i], range) by {
        let i = choose|i: int| 0 <= i < sub.len() && list[j] == expanded(command, sub[i], range);
        assert(sub1[i] == sub[i]);
    }
    assert forall|i: int| #![trigger expanded_text(command, sub1[i], range)] 0 <= i < sub1.len() implies exists|j: int| 0 <= j < list.len() && list[j].text == expanded_text(command, sub1[i], range) by {
        if i < sub.len() {
            assert(sub1[i] == sub[i]);
            assert(exists|j: int| 0 <= j < list.len() && list[j].text == expanded_text(command, sub[i], range));
        } else {
            assert(sub1[i] == x);
            assert(list[j0].text == expanded_text(command, sub1[i], range));
        }
    }
}

/// Adding a source entry whose expansion is inserted keeps the list in step.
proof fn lemma_same_texts_insert(
    command: Seq<char>,
    sub: Seq<SuggestionView>,
    x: SuggestionView,
    range: StringRange,
    before: Seq<SuggestionView>,
    p: int,
)
    requires
        same_texts(command, sub, range, before),
        0 <= p <= before.len(),
    ensures
        same_texts(command, sub.push(x), range, before.insert(p, expanded(command, x, range))),
{
    let e = expanded(command, x, range);
    lemma_expanded(command, x, range);
    let after = before.insert(p, e);
    let sub1 = sub.push(x);
    let k = sub.len() as int;
    assert forall|j: int| #![trigger after[j]] 0 <= j < after.len() implies exists|i: int| 0 <= i < sub1.len() && after[j] == expanded(command, sub1[i], range) by {
        if j < p {
            assert(after[j] == before[j]);
            let i = choose|i: int| 0 <= i < sub.len() && before[j] == expanded(command, sub[i], range);
            assert(sub1[i] == sub[i]);
        } else if j == p {
            assert(after[j] == expanded(command, sub1[k], range));
        } else {
            assert(after[j] == before[j - 1]);
            let i = choose|i: int| 0 <= i < sub.len() && before[j - 1] == expanded(command, sub[i], range);
            assert(sub1[i] == sub[i]);
        }
    }
    assert forall|i: int| #![trigger expanded_text(command, sub1[i], range)] 0 <= i < sub1.len() implies exists|j: int| 0 <= j < after.len() && after[j].text == expanded_text(command, sub1[i], range) by {
        if i < k {
            assert(sub1[i] == sub[i]);
            let j = choose|j: int| 0 <= j < before.len() && before[j].text == expanded_text(command, sub[i], range);
            if j < p {
                assert(after[j] == before[j]);
            } else {
                assert(after[j + 1] == before[j]);
            }
        } else {
            assert(after[p] == e);
        }
    }
}

impl Suggestions {
    pub fn new(range: StringRange, suggestions: Vec<Suggestion>) -> (r: Suggestions)
        ensures
            r@ == (SuggestionsView { range, list: views(suggestions@) }),
    {
        Suggestions { range, suggestions }
    }

    /// No suggestions, at offset zero.
    pub fn empty() -> (r: Suggestions)
        ensures
            r@.range == (StringRange { start: 0, end: 0 }),
            r@.list.len() == 0,
    {
        let r = Suggestions { range: StringRange::at(0), suggestions: Vec::new() };
        assert(r@.list =~= Seq::<SuggestionView>::empty());
        r
    }

    pub fn get_range(&self) -> (r: &StringRange)
        ensures
            *r == self@.range,
    {
        &self.range
    }

    pub fn get_list(&self) -> (r: &[Suggestion])
        ensures
            views(r@) == self@.list,
    {
        self.suggestions.as_slice()
    }

    pub fn is_empty(&self) -> (r: bool)
        ensures
            r == (self@.list.len() == 0),
    {
        self.suggestions.len() == 0
    }

    /// Several lists merged into one: their entries brought to the union of
    /// their ranges, one per text, sorted by text. A single list comes back as it is.
    #[verifier::spinoff_prover]
    #[verifier::rlimit(30)]
    pub fn merge(command: &str, input: Vec<Suggestions>) -> (r: Suggestions)
        requires
            all_within(all_entries(views_of(input@)), command@.len() as int),
        ensures
            input.len() == 0 ==> r@.range == (StringRange { start: 0, end: 0 }) && r@.list.len() == 0,
            input.len() == 1 ==> r@ == input@[0]@,
            input.len() > 1 ==> merged_from(command@, all_entries(views_of(input@)), r@),
    {
        let n = input.len();
        if n == 0 {
            return Suggestions::empty();
        } else if n == 1 {
            let mut input = input;
            return input.remove(0);
        }
        let ghost vs = views_of(input@);
        let mut texts: Vec<Suggestion> = Vec::new();
        let mut i: usize = 0;
        while i < n
            invariant
                n == input.len() == vs.len(),
                vs == views_of(input@),
                i <= n,
                views(texts@) == all_entries(vs.subrange(0, i as int)),
            decreases n - i,
        {
            assert(vs.subrange(0, i + 1).drop_last() =~= vs.subrange(0, i as int));
            let list = &input[i].suggestions;
            assert(list@.map_values(|s: Suggestion| s@) == vs[i as int].list);
            let m = list.len();
            let mut j: usize = 0;
            while j < m
                invariant
                    m == list.len(),
                    j <= m,
                    views(list@) == vs[i as int].list,
                    views(texts@) == all_entries(vs.subrange(0, i as int)) + vs[i as int].list.subrange(0, j as int),
                decreases m - j,
            {
                let d = list[j].duplicate();
                assert(d@ == views(list@)[j as int]);
                let ghost before = views(texts@);
                texts.push(d);
                assert(views(texts@) =~= before.push(d@));
                assert(views(texts@) =~= all_entries(vs.subrange(0, i as int)) + vs[i as int].list.subrange(0, j + 1));
                j = j + 1;
            }
            assert(vs[i as int].list.subrange(0, m as int) =~= vs[i as int].list);
            assert(vs.subrange(0, i + 1).last() == vs[i as int]);
            i = i + 1;
        }
        assert(vs.subrange(0, n as int) =~= vs);
        Suggestions::create(command, texts)
    }

    /// The suggestions brought to the union of their ranges over `command`,
    /// one per text, sorted by text.
    #[verifier::spinoff_prover]
    #[verifier::rlimit(30)]
    pub fn create(command: &str, suggestions: Vec<Suggestion>) -> (r: Suggestions)
        requires
            all_within(views(suggestions@), command@.len() as int),
        ensures
            merged_from(command@, views(suggestions@), r@),
    {
        let ghost src = views(suggestions@);
        let n = suggestions.len();
        if n == 0 {
            return Suggestions::empty();
        }
        let mut start: usize = suggestions[0].get_range().start;
        let mut end: usize = suggestions[0].get_range().end;
        let mut i: usize = 1;
        while i < n
            invariant
                n == suggestions.len() == src.len(),
                src == views(suggestions@),
                1 <= i <= n,
                start == min_start(src.subrange(0, i as int)),
                end == max_end(src.subrange(0, i as int)),
            decreases n - i,
        {
            assert(src.subrange(0, i + 1).drop_last() =~= src.subrange(0, i as int));
            let r = suggestions[i].get_range();
            if r.start < start {
                start = r.start;
            }
            if r.end > end {
                end = r.end;
            }
            i = i + 1;
        }
        assert(src.subrange(0, n as int) =~= src);
        proof {
            lemma_union_bounds(src, command@.len() as int);
        }
        let range = StringRange::between(start, end);
        let mut list: Vec<Suggestion> = Vec::new();
        let mut k: usize = 0;
        while k < n
            invariant
                n == suggestions.len() == src.len(),
                src == views(suggestions@),
                k <= n,
                range == union_range(src),
                range.end <= command@.len(),
                forall|i: int| 0 <= i < src.len() ==> crate::suggestion::suggestion::range_covers(range, #[trigger] src[i].range),
                sorted_by_text(views(list@)),
                same_texts(command@, src.subrange(0, k as int), range, views(list@)),
            decreases n - k,
        {
            assert(src[k as int] == suggestions@[k as int]@);
            let e = suggestions[k].expand(command, range);
            let ghost before = views(list@);
            let ghost sub = src.subrange(0, k as int);
            let ghost sub1 = src.subrange(0, k + 1);
            insert_by_text(&mut list, e);
            proof {
                assert(sub1 =~= sub.push(src[k as int]));
                let after = views(list@);
                if exists|p: int| 0 <= p <= before.len() && after == before.insert(p, e@) {
                    let p = choose|p: int| 0 <= p <= before.len() && after == before.insert(p, e@);
                    lemma_same_texts_insert(command@, sub, src[k as int], range, before, p);
                } else {
                    lemma_expanded(command@, src[k as int], range);
                    let j = choose|j: int| 0 <= j < before.len() && #[trigger] before[j].text == e@.text;
                    lemma_same_texts_keep(command@, sub, src[k as int], range, before, j);
                }
            }
            k = k + 1;
        }
        assert(src.subrange(0, n as int) =~= src);
        Suggestions { range, suggestions: list }
    }
}

} // verus!
