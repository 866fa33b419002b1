use crate::arguments::bool_argument_type::boolean_offers;
use crate::arguments::integer_argument_type::integer_outcome;
use crate::arguments::{BoolArgumentType, IntegerArgumentType};
use crate::context::command_context::{
    accepts, lemma_outcome_end, outcome_end, outcome_error, outcome_is, outcome_ok, ArgumentType, CommandContext, ParsedValue,
};
use crate::context::parsed_argument::ParsedArgument;
use crate::context::string_range::StringRange;
use crate::error::BrigadierError;
use crate::parse_results::ParseResults;
use crate::string_reader::{all_digits, decimal_value, digits_value, number_end, StringReader};
use crate::suggestion::suggestion::SuggestionView;
use crate::suggestion::suggestions::{all_within, lemma_merged_within, merged_from, sorted_by_text, Suggestions};
use crate::suggestion::suggestions_builder::{SuggestionsBuilder, SuggestionsBuilderView};
use crate::text::{chars_of, lower_of, lowercase, same_text, starts_with, views_of_strings};
use crate::tree::command_node::{accepted_by, node_examples, node_name, valid_input, CommandNode, NodeKind};
use vstd::prelude::*;

verus! {

pub const ARGUMENT_SEPARATOR: char = ' ';

/// The result code of a command that succeeded without more to say.
pub const SINGLE_SUCCESS: i32 = 1;

/// `l` stands at `p` in `s` as a whole token: followed by the end or a separator.
pub open spec fn literal_at(s: Seq<char>, p: int, l: Seq<char>) -> bool {
    &&& 0 <= p
    &&& p + l.len() <= s.len()
    &&& s.subrange(p, p + l.len()) == l
    &&& (p + l.len() == s.len() || s[p + l.len()] == ARGUMENT_SEPARATOR)
}

/// Every argument bound in `c` lies within the first `len` characters.
pub open spec fn bound_within(c: CommandContext, len: int) -> bool {
    forall|k: int| #![trigger c.arguments@[k]] 0 <= k < c.arguments@.len() ==> c.arguments@[k].1.range.start
        <= c.arguments@[k].1.range.end <= len
}

/// Two siblings under `parent` that both accept each of `inputs`, which are
/// examples of `child`.
#[derive(Debug, PartialEq)]
pub struct Ambiguity {
    pub parent: usize,
    pub child: usize,
    pub sibling: usize,
    pub inputs: Vec<String>,
}

/// The outcome of running one command once per forked source: the sum of the
/// codes of the runs that succeeded, how many did, and each failure with the
/// position of its source.
#[derive(Debug, PartialEq)]
pub struct ForkOutcome {
    pub result: i128,
    pub successes: usize,
    pub failures: Vec<(usize, BrigadierError)>,
}

pub open spec fn success_count(results: Seq<Result<i32, BrigadierError>>) -> nat
    decreases results.len(),
{
    if results.len() == 0 {
        0
    } else {
        success_count(results.drop_last()) + if results.last() is Ok {
            1nat
        } else {
            0nat
        }
    }
}

pub open spec fn success_sum(results: Seq<Result<i32, BrigadierError>>) -> int
    decreases results.len(),
{
    if results.len() == 0 {
        0
    } else {
        success_sum(results.drop_last()) + match results.last() {
            Ok(code) => code as int,
            Err(_) => 0,
        }
    }
}

/// The failed runs, in order, each with the position of its source.
pub open spec fn failures_of(results: Seq<Result<i32, BrigadierError>>) -> Seq<(usize, BrigadierError)>
    decreases results.len(),
{
    if results.len() == 0 {
        Seq::empty()
    } else {
        let before = failures_of(results.drop_last());
        match results.last() {
            Ok(_) => before,
            Err(e) => before.push(((results.len() - 1) as usize, e)),
        }
    }
}

proof fn lemma_fork_counts(results: Seq<Result<i32, BrigadierError>>)
    ensures
        success_count(results) + failures_of(results).len() == results.len(),
        success_count(results) * i32::MIN <= success_sum(results) <= success_count(results) * i32::MAX,
    decreases results.len(),
{
    if results.len() > 0 {
        lemma_fork_counts(results.drop_last());
    }
}

/// Tallies the runs of a forked command, one result per derived source in
/// the order the sources came: a failure is recorded and the runs after it
/// still count.
pub fn tally_fork(results: &Vec<Result<i32, BrigadierError>>) -> (r: ForkOutcome)
    ensures
        r.successes == success_count(results@),
        r.result == success_sum(results@),
        r.failures@ == failures_of(results@),
        r.successes + r.failures@.len() == results@.len(),
{
    let n = results.len();
    let mut result: i128 = 0;
    let mut successes: usize = 0;
    let mut failures: Vec<(usize, BrigadierError)> = Vec::new();
    let mut i: usize = 0;
    while i < n
        invariant
            n == results@.len(),
            i <= n,
            successes == success_count(results@.subrange(0, i as int)),
            result == success_sum(results@.subrange(0, i as int)),
            failures@ == failures_of(results@.subrange(0, i as int)),
        decreases n - i,
    {
        proof {
            let sub = results@.subrange(0, i + 1);
            assert(sub.drop_last() =~= results@.subrange(0, i as int));
            lemma_fork_counts(results@.subrange(0, i as int));
        }
        match results[i] {
            Ok(code) => {
                successes = successes + 1;
                result = result + code as i128;
            },
            Err(e) => {
                failures.push((i, e));
            },
        }
        i = i + 1;
    }
    proof {
        assert(results@.subrange(0, n as int) =~= results@);
        lemma_fork_counts(results@);
    }
    ForkOutcome { result, successes, failures }
}

/// Two literals, or two arguments: siblings that are tried against the same input.
pub open spec fn same_rank_kinds(a: NodeKind, b: NodeKind) -> bool {
    (a is Literal && b is Literal) || (a is Argument && b is Argument)
}

/// `found` holds a report for `child` and `sibling` under `parent`.
pub open spec fn reports(found: Seq<Ambiguity>, parent: int, child: usize, sibling: usize) -> bool {
    exists|k: int| 0 <= k < found.len() && found[k].parent == parent && found[k].child == child && found[k].sibling == sibling
}

/// A chain stays a chain when one more linked context is added.
proof fn lemma_chain_push(t: Seq<CommandNode>, cs: Seq<CommandContext>, c: CommandContext)
    requires
        is_chain(t, cs),
        is_path(t, c.nodes@),
        c.nodes@.len() > 0,
        t[cs.last().nodes@.last() as int].redirect == Some(c.nodes@[0]),
    ensures
        is_chain(t, cs.push(c)),
{
    let n = cs.push(c);
    assert forall|k: int| 0 <= k < n.len() implies is_path(t, #[trigger] n[k].nodes@) && n[k].nodes@.len() > 0 by {
        if k < cs.len() {
            assert(n[k] == cs[k]);
        }
    }
    assert forall|k: int| 0 <= k < n.len() - 1 implies t[#[trigger] n[k].nodes@.last() as int].redirect == Some(n[k + 1].nodes@[0]) by {
        if k < cs.len() - 1 {
            assert(n[k] == cs[k] && n[k + 1] == cs[k + 1]);
        } else {
            assert(n[k] == cs.last());
        }
    }
}

proof fn lemma_reports_push(found: Seq<Ambiguity>, x: Ambiguity, parent: int, child: usize, sibling: usize)
    requires
        reports(found, parent, child, sibling),
    ensures
        reports(found.push(x), parent, child, sibling),
{
    let k = choose|k: int| 0 <= k < found.len() && found[k].parent == parent && found[k].child == child && found[k].sibling == sibling;
    assert(found.push(x)[k] == found[k]);
}

/// `nodes` is a downward path of the tree: each node a child of the one before.
pub open spec fn is_path(t: Seq<CommandNode>, nodes: Seq<usize>) -> bool {
    &&& forall|k: int| 0 <= k < nodes.len() ==> #[trigger] nodes[k] < t.len()
    &&& forall|k: int| 0 <= k < nodes.len() - 1 ==> t[#[trigger] nodes[k] as int].children@.contains(nodes[k + 1])
}

/// The contexts of a parse: each a non-empty path of the tree, the first from
/// the root, and each next one from the target of the redirect that ends the one before.
pub open spec fn is_chain(t: Seq<CommandNode>, cs: Seq<CommandContext>) -> bool {
    &&& cs.len() > 0
    &&& forall|k: int| 0 <= k < cs.len() ==> is_path(t, #[trigger] cs[k].nodes@) && cs[k].nodes@.len() > 0
    &&& cs[0].nodes@[0] == 0
    &&& forall|k: int| 0 <= k < cs.len() - 1 ==> t[#[trigger] cs[k].nodes@.last() as int].redirect == Some(cs[k + 1].nodes@[0])
}

/// Every node of `nodes` after the first may be used.
pub open spec fn usable_path(usable: Seq<bool>, nodes: Seq<usize>) -> bool {
    forall|k: int| 0 < k < nodes.len() ==> usable[#[trigger] nodes[k] as int]
}

/// A numeric argument type (32- or 64-bit) whose bounds admit zero.
pub open spec fn numeric_admitting_zero(t: ArgumentType) -> bool {
    match t {
        ArgumentType::Integer(i) => i.min <= 0 <= i.max,
        ArgumentType::Long(l) => l.min <= 0 <= l.max,
        _ => false,
    }
}

/// A numeric type whose bounds admit zero reads the token `0` whole.
pub proof fn lemma_numeric_accepts_zero(t: ArgumentType)
    requires
        numeric_admitting_zero(t),
    ensures
        accepts(t, seq!['0']),
{
    let z = seq!['0'];
    assert(number_end(z, 1) == 1);
    assert(number_end(z, 0) == 1);
    assert(z.subrange(0, 1) =~= z);
    assert(z.drop_last() =~= Seq::<char>::empty());
    assert(digits_value(z.drop_last()) == 0);
    assert(z.last() == '0');
    assert(digits_value(z) == 0);
    assert(all_digits(z));
    assert(decimal_value(z) == Some(0int));
}

/// A sequence of examples accepts at least as many entries as its prefixes.
proof fn lemma_accepted_by_grows(examples: Seq<Seq<char>>, kind: NodeKind)
    requires
        examples.len() > 0,
    ensures
        accepted_by(examples, kind).len() >= accepted_by(examples.drop_last(), kind).len(),
{
}

/// After adding `node` under `parent`, `r` is either the child of that name
/// that was there already, with the tree unchanged, or `node` itself, stored
/// at the end of the arena and appended to the parent's children.
pub open spec fn added_or_found(old_tree: Seq<CommandNode>, new_tree: Seq<CommandNode>, parent: int, r: int, node: CommandNode) -> bool {
    ||| (old_tree[parent].children@.contains(r as usize) && new_tree == old_tree)
    ||| {
        &&& r == old_tree.len()
        &&& new_tree.len() == r + 1
        &&& new_tree[r] == node
        &&& new_tree[parent].children@ == old_tree[parent].children@.push(r as usize)
        &&& new_tree[parent].kind == old_tree[parent].kind
        &&& new_tree[parent].command == old_tree[parent].command
        &&& new_tree[parent].redirect == old_tree[parent].redirect
        &&& new_tree[parent].forks == old_tree[parent].forks
    }
}

/// Where the token being typed begins: just after the last separator before `i`.
pub open spec fn token_start(s: Seq<char>, i: int) -> int
    decreases i,
{
    if i <= 0 {
        0
    } else if s[i - 1] == ARGUMENT_SEPARATOR {
        i
    } else {
        token_start(s, i - 1)
    }
}

/// `b` after the first `j` children of `node` that `u` lets through made
/// their offers: a literal offers itself when its lowercase form extends the
/// lowercase typed text; a boolean argument offers `true` and `false` the same
/// way; other arguments offer nothing.
pub open spec fn child_offers(t: Seq<CommandNode>, u: Seq<bool>, node: int, j: int, b: SuggestionsBuilderView) -> SuggestionsBuilderView
    decreases j,
{
    if j <= 0 {
        b
    } else {
        let prev = child_offers(t, u, node, j - 1, b);
        let c = t[node].children@[j - 1] as int;
        if !u[c] {
            prev
        } else {
            match t[c].kind {
                NodeKind::Literal(l) => if lower_of(prev.remaining()).is_prefix_of(lower_of(l@)) {
                    prev.suggested(l@, None)
                } else {
                    prev
                },
                NodeKind::Argument { name, argument_type } => if argument_type is Bool {
                    boolean_offers(prev)
                } else {
                    prev
                },
                NodeKind::Root => prev,
            }
        }
    }
}

/// What completing `s` offers before merging: the text before the last
/// separator is parsed; when that succeeds or only runs out of input, the
/// children of the node it stops at make their offers for the token after
/// the separator. Otherwise there is nothing to offer.
pub open spec fn completion_entries(t: Seq<CommandNode>, u: Seq<bool>, s: Seq<char>) -> Option<Seq<SuggestionView>> {
    let start = token_start(s, s.len() as int);
    let prefix = s.subrange(0, if start > 0 {
        start - 1
    } else {
        0
    });
    let w = walk(t, u, prefix, 0, 0, false, 0);
    if w.error is None || w.error->Some_0.0 == BrigadierError::IncompleteCommand {
        Some(
            child_offers(
                t,
                u,
                w.last,
                t[w.last].children@.len() as int,
                SuggestionsBuilderView { input: s, start, result: Seq::empty() },
            ).result,
        )
    } else {
        None
    }
}

/// One argument bound by a parse: the name of its node, the range it took
/// and the type that read it.
pub ghost struct Binding {
    pub name: Seq<char>,
    pub start: int,
    pub end: int,
    pub argument_type: ArgumentType,
}

/// How a parse ends: the error and its offset when it fails, the node it
/// stops at, and the arguments it bound on the way, in order.
pub ghost struct Walk {
    pub error: Option<(BrigadierError, int)>,
    pub last: int,
    pub bindings: Seq<Binding>,
}

pub open spec fn stopped(e: BrigadierError, at: int, node: int) -> Walk {
    Walk { error: Some((e, at)), last: node, bindings: Seq::empty() }
}

/// `w` with `bound` bound before it.
pub open spec fn after(bound: Seq<Binding>, w: Walk) -> Walk {
    Walk { bindings: bound + w.bindings, ..w }
}

pub open spec fn argument_type_of(kind: NodeKind) -> ArgumentType {
    match kind {
        NodeKind::Argument { name, argument_type } => argument_type,
        _ => ArgumentType::Bool(BoolArgumentType),
    }
}

/// The first usable literal child of `node`, from its `j`-th child on, that
/// stands at `p` as a whole token.
pub open spec fn literal_pick(t: Seq<CommandNode>, u: Seq<bool>, s: Seq<char>, node: int, p: int, j: int) -> Option<int>
    decreases t[node].children@.len() - j,
{
    if j < 0 || j >= t[node].children@.len() {
        None
    } else {
        let c = t[node].children@[j] as int;
        if u[c] && t[c].kind is Literal && literal_at(s, p, node_name(t[c].kind)) {
            Some(c)
        } else {
            literal_pick(t, u, s, node, p, j + 1)
        }
    }
}

/// The first usable argument child of `node`, from its `j`-th child on,
/// whose type reads a value at `p` followed by the end or a separator; else
/// the error of the last argument child tried (`last` so far), or
/// `UnknownCommand` when none was.
pub open spec fn argument_pick(
    t: Seq<CommandNode>,
    u: Seq<bool>,
    s: Seq<char>,
    node: int,
    p: int,
    j: int,
    last: Option<BrigadierError>,
) -> Result<int, BrigadierError>
    decreases t[node].children@.len() - j,
{
    if j < 0 || j >= t[node].children@.len() {
        match last {
            Some(e) => Err(e),
            None => Err(BrigadierError::UnknownCommand),
        }
    } else {
        let c = t[node].children@[j] as int;
        if u[c] && t[c].kind is Argument {
            let at = argument_type_of(t[c].kind);
            if !outcome_ok(at, s, p) {
                argument_pick(t, u, s, node, p, j + 1, Some(outcome_error(at, s, p)))
            } else {
                let end = outcome_end(at, s, p);
                if end == s.len() || (0 <= end < s.len() && s[end] == ARGUMENT_SEPARATOR) {
                    Ok(c)
                } else {
                    argument_pick(t, u, s, node, p, j + 1, Some(BrigadierError::ExpectedArgumentSeparator))
                }
            }
        } else {
            argument_pick(t, u, s, node, p, j + 1, last)
        }
    }
}

pub proof fn lemma_literal_pick(t: Seq<CommandNode>, u: Seq<bool>, s: Seq<char>, node: int, p: int, j: int)
    ensures
        literal_pick(t, u, s, node, p, j) matches Some(c) ==> 0 <= c <= usize::MAX && t[node].children@.contains(c as usize) && literal_at(
            s,
            p,
            node_name(t[c].kind),
        ),
    decreases t[node].children@.len() - j,
{
    if 0 <= j < t[node].children@.len() {
        lemma_literal_pick(t, u, s, node, p, j + 1);
        let c = t[node].children@[j] as int;
        if u[c] && t[c].kind is Literal && literal_at(s, p, node_name(t[c].kind)) {
            assert(t[node].children@[j] == c as usize);
        }
    }
}

pub proof fn lemma_argument_pick(t: Seq<CommandNode>, u: Seq<bool>, s: Seq<char>, node: int, p: int, j: int, last: Option<BrigadierError>)
    ensures
        argument_pick(t, u, s, node, p, j, last) matches Ok(c) ==> 0 <= c <= usize::MAX && t[node].children@.contains(c as usize) && outcome_ok(
            argument_type_of(t[c].kind),
            s,
            p,
        ),
    decreases t[node].children@.len() - j,
{
    if 0 <= j < t[node].children@.len() {
        let c = t[node].children@[j] as int;
        let at = argument_type_of(t[c].kind);
        lemma_argument_pick(t, u, s, node, p, j + 1, Some(outcome_error(at, s, p)));
        lemma_argument_pick(t, u, s, node, p, j + 1, Some(BrigadierError::ExpectedArgumentSeparator));
        lemma_argument_pick(t, u, s, node, p, j + 1, last);
        assert(t[node].children@[j] == c as usize);
    }
}

/// The greedy descent of a parse, from `node` with the cursor at `p`:
/// redirects are followed without reading; at the end of input the parse
/// succeeds where the node carries a command and is incomplete where it does
/// not; a node without children and with input left stops with trailing
/// data; otherwise one separator is read (required after a token, skipped
/// when present before the first), then a literal child standing there as a
/// whole token is taken, else the first argument child whose value reads,
/// else the parse stops with that child's error at the token's start.
pub open spec fn walk(t: Seq<CommandNode>, u: Seq<bool>, s: Seq<char>, node: int, p: int, need_sep: bool, hops: int) -> Walk
    decreases 2 * (s.len() - p) + (if need_sep {
        0int
    } else {
        1int
    }), t.len() - hops
    when 0 <= p <= s.len() && 0 <= hops <= t.len() && 0 <= node < t.len()
{
    match t[node].redirect {
        Some(target) => if hops >= t.len() {
            stopped(BrigadierError::UnknownCommand, p, node)
        } else {
            walk(t, u, s, target as int, p, need_sep, hops + 1)
        },
        None => if p >= s.len() {
            if t[node].command is Some {
                Walk { error: None, last: node, bindings: Seq::empty() }
            } else {
                stopped(BrigadierError::IncompleteCommand, p, node)
            }
        } else if t[node].children@.len() == 0 {
            stopped(BrigadierError::TrailingData, p, node)
        } else if need_sep && s[p] != ARGUMENT_SEPARATOR {
            stopped(BrigadierError::ExpectedArgumentSeparator, p, node)
        } else {
            let q = if s[p] == ARGUMENT_SEPARATOR {
                p + 1
            } else {
                p
            };
            match literal_pick(t, u, s, node, q, 0) {
                Some(c) => {
                    proof {
                        lemma_literal_pick(t, u, s, node, q, 0);
                    }
                    walk(t, u, s, c, q + node_name(t[c].kind).len(), true, 0)
                },
                None => match argument_pick(t, u, s, node, q, 0, None) {
                    Ok(c) => {
                        let at = argument_type_of(t[c].kind);
                        proof {
                            lemma_outcome_end(at, s, q);
                        }
                        let end = outcome_end(at, s, q);
                        after(
                            seq![Binding { name: node_name(t[c].kind), start: q, end, argument_type: at }],
                            walk(t, u, s, c, end, true, 0),
                        )
                    },
                    Err(e) => stopped(e, q, node),
                },
            }
        },
    }
}

/// The arguments of all the contexts, in order.
pub open spec fn all_arguments(cs: Seq<CommandContext>) -> Seq<(String, ParsedArgument)>
    decreases cs.len(),
{
    if cs.len() == 0 {
        Seq::empty()
    } else {
        all_arguments(cs.drop_last()) + cs.last().arguments@
    }
}

/// The bound arguments `args` are the bindings `bs`: same names and ranges,
/// and each value is what its type reads in `s` at its start.
pub open spec fn args_agree(args: Seq<(String, ParsedArgument)>, bs: Seq<Binding>, s: Seq<char>) -> bool {
    &&& args.len() == bs.len()
    &&& forall|k: int| #![trigger args[k]] 0 <= k < args.len() ==> {
        &&& args[k].0@ == bs[k].name
        &&& args[k].1.range.start == bs[k].start
        &&& args[k].1.range.end == bs[k].end
        &&& outcome_is(bs[k].argument_type, s, bs[k].start, args[k].1.result)
    }
}

pub open spec fn walk_error(w: Walk) -> Option<(BrigadierError, usize)> {
    match w.error {
        Some((e, at)) => Some((e, at as usize)),
        None => None,
    }
}

/// Marks that let a source use every one of `n` nodes.
pub open spec fn all_usable(n: nat) -> Seq<bool> {
    Seq::new(n, |i: int| true)
}

pub proof fn lemma_all_arguments_push(cs: Seq<CommandContext>, x: CommandContext)
    ensures
        all_arguments(cs.push(x)) == all_arguments(cs) + x.arguments@,
{
    assert(cs.push(x).drop_last() =~= cs);
}

pub proof fn lemma_args_agree_push(a: Seq<(String, ParsedArgument)>, bs: Seq<Binding>, s: Seq<char>, x: (String, ParsedArgument), b: Binding)
    requires
        args_agree(a, bs, s),
        args_agree(seq![x], seq![b], s),
    ensures
        args_agree(a.push(x), bs.push(b), s),
{
    let a1 = a.push(x);
    let b1 = bs.push(b);
    assert forall|k: int| #![trigger a1[k]] 0 <= k < a1.len() implies {
        &&& a1[k].0@ == b1[k].name
        &&& a1[k].1.range.start == b1[k].start
        &&& a1[k].1.range.end == b1[k].end
        &&& outcome_is(b1[k].argument_type, s, b1[k].start, a1[k].1.result)
    } by {
        if k < a.len() {
            assert(a1[k] == a[k] && b1[k] == bs[k]);
        } else {
            assert(a1[k] == seq![x][0] && b1[k] == seq![b][0]);
        }
    }
}

/// The sources that a forking redirect yields, in order: those of each
/// successful modifier call, one call per source.
pub open spec fn derived_sources<S>(calls: Seq<Result<Vec<S>, BrigadierError>>) -> Seq<S>
    decreases calls.len(),
{
    if calls.len() == 0 {
        Seq::empty()
    } else {
        derived_sources(calls.drop_last()) + match calls.last() {
            Ok(v) => v@,
            Err(_) => Seq::empty(),
        }
    }
}

/// The failed modifier calls, in order, each with the position of its source.
pub open spec fn modifier_failures<S>(calls: Seq<Result<Vec<S>, BrigadierError>>) -> Seq<(usize, BrigadierError)>
    decreases calls.len(),
{
    if calls.len() == 0 {
        Seq::empty()
    } else {
        let before = modifier_failures(calls.drop_last());
        match calls.last() {
            Ok(_) => before,
            Err(e) => before.push(((calls.len() - 1) as usize, e)),
        }
    }
}

/// Gathers the outcome of running a forking redirect's modifier once per
/// source: the derived sources in order, and each failed call recorded with
/// the position of its source; a failure does not stop the others.
pub fn expand_sources<S>(calls: Vec<Result<Vec<S>, BrigadierError>>) -> (r: (Vec<S>, Vec<(usize, BrigadierError)>))
    ensures
        r.0@ == derived_sources(calls@),
        r.1@ == modifier_failures(calls@),
{
    let ghost all = calls@;
    let n = calls.len();
    let mut rest = calls;
    let mut sources: Vec<S> = Vec::new();
    let mut failures: Vec<(usize, BrigadierError)> = Vec::new();
    let mut i: usize = 0;
    while i < n
        invariant
            n == all.len(),
            i <= n,
            rest@ == all.subrange(i as int, n as int),
            sources@ == derived_sources(all.subrange(0, i as int)),
            failures@ == modifier_failures(all.subrange(0, i as int)),
        decreases n - i,
    {
        assert(all.subrange(0, i + 1).drop_last() =~= all.subrange(0, i as int));
        assert(rest@[0] == all[i as int]);
        let call = rest.remove(0);
        assert(rest@ =~= all.subrange(i + 1, n as int));
        match call {
            Ok(v) => {
                let mut v = v;
                sources.append(&mut v);
            },
            Err(e) => {
                failures.push((i, e));
            },
        }
        i = i + 1;
    }
    assert(all.subrange(0, n as int) =~= all);
    (sources, failures)
}

/// What running a parsed command comes to: without a fork, the one run's
/// error is passed back as it is; otherwise the runs are tallied.
pub fn dispatch_outcome(forked: bool, results: &Vec<Result<i32, BrigadierError>>) -> (r: Result<ForkOutcome, BrigadierError>)
    ensures
        (!forked && results@.len() == 1 && results@[0] is Err) ==> r == Err::<ForkOutcome, BrigadierError>(results@[0]->Err_0),
        !(!forked && results@.len() == 1 && results@[0] is Err) ==> (r matches Ok(o) && o.successes == success_count(results@)
            && o.result == success_sum(results@) && o.failures@ == failures_of(results@)),
{
    if !forked && results.len() == 1 {
        match results[0] {
            Err(e) => {
                return Err(e);
            },
            Ok(_) => {},
        }
    }
    Ok(tally_fork(results))
}

/// A command tree kept in one arena; node 0 is the root.
#[derive(Debug)]
pub struct CommandDispatcher {
    nodes: Vec<CommandNode>,
}

impl CommandDispatcher {
    /// The nodes of the tree, by index.
    pub closed spec fn tree(&self) -> Seq<CommandNode> {
        self.nodes@
    }

    /// Node 0 is the root; children come after their parent; a redirect
    /// points into the tree; a redirecting node has no children of its own.
    pub open spec fn wf(&self) -> bool {
        let t = self.tree();
        &&& 0 < t.len() < usize::MAX
        &&& t[0].kind is Root
        &&& forall|i: int, j: int| 0 <= i < t.len() && 0 <= j < t[i].children@.len() ==> i < #[trigger] t[i].children@[j] < t.len()
        &&& forall|i: int| 0 <= i < t.len() && #[trigger] t[i].redirect is Some ==> t[i].redirect->Some_0 < t.len() && t[i].children@.len() == 0
        &&& forall|i: int, a: int, b: int|
            0 <= i < t.len() && 0 <= a < b < t[i].children@.len() ==> node_name(t[#[trigger] t[i].children@[a] as int].kind)
                != node_name(t[#[trigger] t[i].children@[b] as int].kind)
    }

    pub fn new() -> (r: CommandDispatcher)
        ensures
            r.wf(),
            r.tree().len() == 1,
    {
        let mut nodes: Vec<CommandNode> = Vec::new();
        nodes.push(CommandNode::new(NodeKind::Root));
        CommandDispatcher { nodes }
    }

    pub fn node_count(&self) -> (r: usize)
        ensures
            r == self.tree().len(),
    {
        self.nodes.len()
    }

    pub fn get_root(&self) -> (r: usize)
        ensures
            r == 0,
    {
        0
    }

    pub fn get_node(&self, index: usize) -> (r: &CommandNode)
        requires
            index < self.tree().len(),
        ensures
            *r == self.tree()[index as int],
    {
        &self.nodes[index]
    }

    /// The child of `parent` named `name`, if there is one.
    pub fn get_child(&self, parent: usize, name: &str) -> (r: Option<usize>)
        requires
            self.wf(),
            parent < self.tree().len(),
        ensures
            match r {
                Some(c) => self.tree()[parent as int].children@.contains(c) && node_name(self.tree()[c as int].kind) == name@,
                None => forall|j: int| 0 <= j < self.tree()[parent as int].children@.len() ==> node_name(
                    #[trigger] self.tree()[self.tree()[parent as int].children@[j] as int].kind,
                ) != name@,
            },
    {
        let n = self.nodes[parent].children.len();
        let mut j: usize = 0;
        while j < n
            invariant
                self.wf(),
                parent < self.tree().len(),
                n == self.tree()[parent as int].children@.len(),
                j <= n,
                forall|k: int| 0 <= k < j ==> node_name(#[trigger] self.tree()[self.tree()[parent as int].children@[k] as int].kind) != name@,
            decreases n - j,
        {
            let c = self.nodes[parent].children[j];
            if same_text(self.nodes[c].get_name(), name) {
                return Some(c);
            }
            j = j + 1;
        }
        None
    }

    /// Adds `node` as a child of `parent`, or hands back the child of that
    /// name if `parent` has one already.
    fn add_child(&mut self, parent: usize, node: CommandNode) -> (r: usize)
        requires
            old(self).wf(),
            parent < old(self).tree().len(),
            old(self).tree()[parent as int].redirect is None,
            old(self).tree().len() + 1 < usize::MAX,
            node.children@.len() == 0,
            node.redirect is None,
            !(node.kind is Root),
        ensures
            final(self).wf(),
            r < final(self).tree().len(),
            final(self).tree()[parent as int].children@.contains(r),
            node_name(final(self).tree()[r as int].kind) == node_name(node.kind),
            final(self).tree().len() >= old(self).tree().len(),
            forall|i: int| 0 <= i < old(self).tree().len() && i != parent ==> #[trigger] final(self).tree()[i] == old(self).tree()[i],
            added_or_found(old(self).tree(), final(self).tree(), parent as int, r as int, node),
    {
        match self.get_child(parent, node.get_name()) {
            Some(c) => {
                return c;
            },
            None => {},
        }
        let index = self.nodes.len();
        self.nodes.push(node);
        self.nodes[parent].children.push(index);
        proof {
            let t = self.tree();
            assert(t[parent as int].children@.last() == index);
            assert forall|i: int, j: int| 0 <= i < t.len() && 0 <= j < t[i].children@.len() implies i < #[trigger] t[i].children@[j] < t.len() by {
                if i == parent && j == t[i].children@.len() - 1 {
                } else if i == parent {
                    assert(t[i].children@[j] == old(self).tree()[i].children@[j]);
                } else if i < index {
                    assert(t[i] == old(self).tree()[i]);
                }
            }
            assert forall|i: int| 0 <= i < t.len() && #[trigger] t[i].redirect is Some implies t[i].redirect->Some_0 < t.len() && t[i].children@.len() == 0 by {
                if i < index && i != parent {
                    assert(t[i] == old(self).tree()[i]);
                }
            }
            let o = old(self).tree();
            assert forall|i: int, a: int, b: int|
                0 <= i < t.len() && 0 <= a < b < t[i].children@.len() implies node_name(t[#[trigger] t[i].children@[a] as int].kind)
                    != node_name(t[#[trigger] t[i].children@[b] as int].kind) by {
                if i == parent {
                    assert(t[i].children@[a] == o[i].children@[a]);
                    let ca = o[i].children@[a];
                    assert(t[ca as int].kind == o[ca as int].kind);
                    if b == t[i].children@.len() - 1 {
                        assert(t[i].children@[b] == index);
                        assert(node_name(o[o[parent as int].children@[a] as int].kind) != node_name(node.kind));
                    } else {
                        assert(t[i].children@[b] == o[i].children@[b]);
                        let cb = o[i].children@[b];
                        assert(t[cb as int].kind == o[cb as int].kind);
                    }
                } else if i < index {
                    assert(t[i] == o[i]);
                    let ca = o[i].children@[a];
                    let cb = o[i].children@[b];
                    assert(t[ca as int].kind == o[ca as int].kind);
                    assert(t[cb as int].kind == o[cb as int].kind);
                }
            }
            assert(t[parent as int].children@ =~= o[parent as int].children@.push(index));
        }
        index
    }

    /// Adds a literal child to `parent`; hands back its index.
    pub fn add_literal(&mut self, parent: usize, literal: &str) -> (r: usize)
        requires
            old(self).wf(),
            parent < old(self).tree().len(),
            old(self).tree()[parent as int].redirect is None,
            old(self).tree().len() + 1 < usize::MAX,
        ensures
            final(self).wf(),
            r < final(self).tree().len(),
            final(self).tree()[parent as int].children@.contains(r),
            node_name(final(self).tree()[r as int].kind) == literal@,
            (final(self).tree() == old(self).tree() && old(self).tree()[parent as int].children@.contains(r)) || (
            r == old(self).tree().len() && final(self).tree()[parent as int].children@ == old(
                self,
            ).tree()[parent as int].children@.push(r) && final(self).tree()[r as int].kind is Literal
                && final(self).tree()[r as int].children@.len() == 0 && final(self).tree()[r as int].command is None
                && final(self).tree()[r as int].redirect is None),
            final(self).tree().len() >= old(self).tree().len(),
            forall|i: int| 0 <= i < old(self).tree().len() && i != parent ==> #[trigger] final(self).tree()[i] == old(self).tree()[i],
    {
        self.add_child(parent, CommandNode::new(NodeKind::Literal(literal.to_owned())))
    }

    /// Adds an argument child to `parent`; hands back its index.
    pub fn add_argument(&mut self, parent: usize, name: &str, argument_type: ArgumentType) -> (r: usize)
        requires
            old(self).wf(),
            parent < old(self).tree().len(),
            old(self).tree()[parent as int].redirect is None,
            old(self).tree().len() + 1 < usize::MAX,
        ensures
            final(self).wf(),
            r < final(self).tree().len(),
            final(self).tree()[parent as int].children@.contains(r),
            node_name(final(self).tree()[r as int].kind) == name@,
            (final(self).tree() == old(self).tree() && old(self).tree()[parent as int].children@.contains(r)) || (
            r == old(self).tree().len() && final(self).tree()[parent as int].children@ == old(
                self,
            ).tree()[parent as int].children@.push(r) && final(self).tree()[r as int].kind == (NodeKind::Argument {
                name: final(self).tree()[r as int].kind->name,
                argument_type,
            }) && final(self).tree()[r as int].children@.len() == 0 && final(self).tree()[r as int].command is None
                && final(self).tree()[r as int].redirect is None),
            final(self).tree().len() >= old(self).tree().len(),
            forall|i: int| 0 <= i < old(self).tree().len() && i != parent ==> #[trigger] final(self).tree()[i] == old(self).tree()[i],
    {
        self.add_child(
            parent,
            CommandNode::new(NodeKind::Argument { name: name.to_owned(), argument_type }),
        )
    }

    /// Attaches `command` to `node`: parsing that ends there succeeds with it.
    pub fn executes(&mut self, node: usize, command: u64)
        requires
            old(self).wf(),
            node < old(self).tree().len(),
        ensures
            final(self).wf(),
            final(self).tree().len() == old(self).tree().len(),
            final(self).tree()[node as int].command == Some(command),
            final(self).tree()[node as int].kind == old(self).tree()[node as int].kind,
            final(self).tree()[node as int].children == old(self).tree()[node as int].children,
            final(self).tree()[node as int].redirect == old(self).tree()[node as int].redirect,
            forall|i: int| 0 <= i < old(self).tree().len() && i != node ==> #[trigger] final(self).tree()[i] == old(self).tree()[i],
    {
        self.nodes[node].command = Some(command);
        proof {
            let t = self.tree();
            assert forall|i: int, j: int| 0 <= i < t.len() && 0 <= j < t[i].children@.len() implies i < #[trigger] t[i].children@[j] < t.len() by {
                assert(t[i].children == old(self).tree()[i].children);
            }
            assert forall|i: int| 0 <= i < t.len() && #[trigger] t[i].redirect is Some implies t[i].redirect->Some_0 < t.len() && t[i].children@.len() == 0 by {
                assert(t[i].children == old(self).tree()[i].children);
                assert(t[i].redirect == old(self).tree()[i].redirect);
            }
        }
    }

    /// Makes parsing go on at `target` after `node`; with `forks`, the command
    /// found there runs once per source that the redirect yields.
    pub fn redirect(&mut self, node: usize, target: usize, forks: bool)
        requires
            old(self).wf(),
            node < old(self).tree().len(),
            target < old(self).tree().len(),
            node != 0,
            old(self).tree()[node as int].children@.len() == 0,
        ensures
            final(self).wf(),
            final(self).tree().len() == old(self).tree().len(),
            final(self).tree()[node as int].redirect == Some(target),
            final(self).tree()[node as int].forks == forks,
            final(self).tree()[node as int].kind == old(self).tree()[node as int].kind,
            final(self).tree()[node as int].command == old(self).tree()[node as int].command,
            forall|i: int| 0 <= i < old(self).tree().len() && i != node ==> #[trigger] final(self).tree()[i] == old(self).tree()[i],
    {
        self.nodes[node].redirect = Some(target);
        self.nodes[node].forks = forks;
        proof {
            let t = self.tree();
            assert forall|i: int, j: int| 0 <= i < t.len() && 0 <= j < t[i].children@.len() implies i < #[trigger] t[i].children@[j] < t.len() by {
                assert(t[i].children == old(self).tree()[i].children);
            }
            assert forall|i: int| 0 <= i < t.len() && #[trigger] t[i].redirect is Some implies t[i].redirect->Some_0 < t.len() && t[i].children@.len() == 0 by {
                assert(t[i].children == old(self).tree()[i].children);
            }
        }
    }

    /// Whether the literal of `node` stands at the cursor as a whole token.
    fn literal_here(reader: &StringReader, literal: &str) -> (r: bool)
        requires
            reader.wf(),
        ensures
            r == literal_at(reader.text(), reader.pos(), literal@),
    {
        let rest = reader.get_remaining();
        if !starts_with(rest, literal) {
            proof {
                if literal_at(reader.text(), reader.pos(), literal@) {
                    assert(literal@.is_prefix_of(rest@)) by {
                        assert forall|k: int| 0 <= k < literal@.len() implies rest@[k] == literal@[k] by {
                            assert(reader.text().subrange(reader.pos(), reader.pos() + literal@.len())[k] == literal@[k]);
                        }
                    }
                }
            }
            return false;
        }
        let n = literal.unicode_len();
        assert(reader.text().subrange(reader.pos(), reader.pos() + n) =~= literal@);
        match reader.peek(n) {
            Ok(c) => c == ARGUMENT_SEPARATOR,
            Err(_) => true,
        }
    }

    /// Picks the child of `node` that matches at the cursor: a literal child
    /// standing there as a whole token wins; else the first argument child, in
    /// order, whose value parses and is followed by the end or a separator.
    /// A matched argument is bound into `current`. On failure the cursor stays
    /// where it was and the error of the last argument child tried, or
    /// `UnknownCommand` when there was none, comes back.
    #[verifier::spinoff_prover]
    #[verifier::rlimit(30)]
    fn match_child(&self, node: usize, usable: &Vec<bool>, reader: &mut StringReader, current: &mut CommandContext) -> (r: Result<usize, BrigadierError>)
        requires
            self.wf(),
            usable@.len() == self.tree().len(),
            node < self.tree().len(),
            old(reader).wf(),
            bound_within(*old(current), old(reader).pos()),
        ensures
            final(reader).wf(),
            final(reader).text() == old(reader).text(),
            bound_within(*final(current), final(reader).pos()),
            final(current).nodes == old(current).nodes,
            final(current).range == old(current).range,
            final(current).forks == old(current).forks,
            final(current).command == old(current).command,
            match r {
                Ok(c) => self.tree()[node as int].children@.contains(c) && usable@[c as int] && old(reader).pos() <= final(reader).pos(),
                Err(_) => final(reader).pos() == old(reader).pos(),
            },
            ({
                let tr = self.tree();
                let s = old(reader).text();
                let q = old(reader).pos();
                match literal_pick(tr, usable@, s, node as int, q, 0) {
                    Some(c) => r == Ok::<usize, BrigadierError>(c as usize) && final(reader).pos() == q + node_name(tr[c].kind).len()
                        && final(current).arguments == old(current).arguments,
                    None => match argument_pick(tr, usable@, s, node as int, q, 0, None) {
                        Ok(c) => r == Ok::<usize, BrigadierError>(c as usize) && final(reader).pos() == outcome_end(argument_type_of(tr[c].kind), s, q)
                            && final(current).arguments@.len() == old(current).arguments@.len() + 1
                            && final(current).arguments@.drop_last() == old(current).arguments@
                            && args_agree(
                            seq![final(current).arguments@.last()],
                            seq![Binding { name: node_name(tr[c].kind), start: q, end: outcome_end(argument_type_of(tr[c].kind), s, q), argument_type: argument_type_of(tr[c].kind) }],
                            s,
                        ),
                        Err(e) => r == Err::<usize, BrigadierError>(e) && final(reader).pos() == q
                            && final(current).arguments == old(current).arguments,
                    },
                }
            }),
    {
        let ghost tr = self.tree();
        let ghost s = reader.text();
        let start = reader.get_cursor();
        let n = self.nodes[node].children.len();
        let mut j: usize = 0;
        while j < n
            invariant
                self.wf(),
                tr == self.tree(),
                node < self.tree().len(),
                n == self.tree()[node as int].children@.len(),
                j <= n,
                reader.wf(),
                reader.text() == old(reader).text(),
                s == old(reader).text(),
                reader.pos() == start == old(reader).pos(),
                *current == *old(current),
                bound_within(*old(current), start as int),
                usable@.len() == self.tree().len(),
                literal_pick(tr, usable@, s, node as int, start as int, 0) == literal_pick(tr, usable@, s, node as int, start as int, j as int),
            decreases n - j,
        {
            let c = self.nodes[node].children[j];
            if !usable[c] {
                j = j + 1;
                continue;
            }
            match &self.nodes[c].kind {
                NodeKind::Literal(l) => {
                    if Self::literal_here(reader, l.as_str()) {
                        let len = l.as_str().unicode_len();
                        reader.set_cursor(start + len);
                        assert(bound_within(*current, reader.pos())) by {
                            assert forall|k: int| #![trigger current.arguments@[k]] 0 <= k < current.arguments@.len() implies current.arguments@[k].1.range.start
                                <= current.arguments@[k].1.range.end <= reader.pos() by {
                                assert(current.arguments@[k].1.range.end <= start);
                            }
                        }
                        return Ok(c);
                    }
                },
                _ => {},
            }
            j = j + 1;
        }
        let mut last_error: Option<BrigadierError> = None;
        j = 0;
        while j < n
            invariant
                self.wf(),
                tr == self.tree(),
                node < self.tree().len(),
                n == self.tree()[node as int].children@.len(),
                j <= n,
                reader.wf(),
                reader.text() == old(reader).text(),
                s == old(reader).text(),
                reader.pos() == start == old(reader).pos(),
                *current == *old(current),
                bound_within(*old(current), start as int),
                usable@.len() == self.tree().len(),
                literal_pick(tr, usable@, s, node as int, start as int, 0) is None,
                argument_pick(tr, usable@, s, node as int, start as int, 0, None) == argument_pick(
                    tr,
                    usable@,
                    s,
                    node as int,
                    start as int,
                    j as int,
                    last_error,
                ),
            decreases n - j,
        {
            let c = self.nodes[node].children[j];
            if !usable[c] {
                j = j + 1;
                continue;
            }
            match &self.nodes[c].kind {
                NodeKind::Argument { name, argument_type } => {
                    match argument_type.parse(reader) {
                        Ok(v) => {
                            let separated = match reader.peek_char() {
                                Ok(ch) => ch == ARGUMENT_SEPARATOR,
                                Err(_) => true,
                            };
                            if separated {
                                let end = reader.get_cursor();
                                let arg = ParsedArgument::new(start, end, Ok(v));
                                assert(arg.range.start == start && arg.range.end == end);
                                let ghost before = current.arguments@;
                                current.arguments.push((name.clone(), arg));
                                assert(current.arguments@.last().1 == arg);
                                assert(current.arguments@.drop_last() =~= before);
                                assert(bound_within(*current, reader.pos())) by {
                                    assert forall|k: int| #![trigger current.arguments@[k]] 0 <= k < current.arguments@.len() implies current.arguments@[k].1.range.start
                                        <= current.arguments@[k].1.range.end <= reader.pos() by {
                                        if k < current.arguments@.len() - 1 {
                                            assert(current.arguments@[k] == old(current).arguments@[k]);
                                            assert(old(current).arguments@[k].1.range.end <= start);
                                        }
                                    }
                                }
                                return Ok(c);
                            }
                            last_error = Some(BrigadierError::ExpectedArgumentSeparator);
                            reader.set_cursor(start);
                        },
                        Err(e) => {
                            last_error = Some(e);
                            reader.set_cursor(start);
                        },
                    }
                },
                _ => {},
            }
            j = j + 1;
        }
        match last_error {
            Some(e) => Err(e),
            None => Err(BrigadierError::UnknownCommand),
        }
    }

    /// Matches `input` against the tree from the root, left to right, without
    /// going back. Tokens are parted by one space; one space before the first
    /// token is skipped too. A redirect starts a new
    /// context and goes on at its target without reading anything. Parsing
    /// succeeds when the input ends at a node that carries a command; it
    /// fails with `IncompleteCommand` at a node without one, with
    /// `TrailingData` at a node with nothing to go on with, with the error of
    /// the child match otherwise. The contexts built so far come back either way.
    /// Parses `input` for a source that may use every node.
    pub fn parse(&self, input: &str) -> (r: ParseResults)
        requires
            self.wf(),
        ensures
            r.reader.wf(),
            r.reader.text() == input@,
            forall|k: int| 0 <= k < r.contexts@.len() ==> bound_within(#[trigger] r.contexts@[k], input@.len() as int),
            is_chain(self.tree(), r.contexts@),
            r.error is None ==> r.reader.pos() == input@.len() && r.contexts@.last().command is Some
                && r.contexts@.last().command == self.tree()[r.contexts@.last().nodes@.last() as int].command,
            r.error matches Some(e) ==> e.1 == r.reader.pos(),
            r.error == walk_error(walk(self.tree(), all_usable(self.tree().len()), input@, 0, 0, false, 0)),
            args_agree(all_arguments(r.contexts@), walk(self.tree(), all_usable(self.tree().len()), input@, 0, 0, false, 0).bindings, input@),
            r.contexts@.last().nodes@.last() == walk(self.tree(), all_usable(self.tree().len()), input@, 0, 0, false, 0).last,
    {
        let usable = self.everything_usable();
        self.parse_for(input, &usable)
    }

    /// Where the walk stops at the current state, the whole parse stops with
    /// the contexts built so far and the bindings made so far.
    proof fn lemma_finish(&self, contexts: Seq<CommandContext>, current: CommandContext, bound: Seq<Binding>, w: Walk)
        requires
            w.bindings.len() == 0,
        ensures
            after(bound, w).bindings == bound,
            all_arguments(contexts.push(current)) == all_arguments(contexts) + current.arguments@,
    {
        assert(bound + w.bindings =~= bound);
        lemma_all_arguments_push(contexts, current);
    }

    /// One mark per node, all set.
    fn everything_usable(&self) -> (r: Vec<bool>)
        ensures
            r@.len() == self.tree().len(),
            forall|i: int| 0 <= i < r@.len() ==> r@[i],
            r@ == all_usable(self.tree().len()),
    {
        let n = self.nodes.len();
        let mut r: Vec<bool> = Vec::new();
        let mut i: usize = 0;
        while i < n
            invariant
                n == self.tree().len(),
                i <= n,
                r@.len() == i,
                forall|k: int| 0 <= k < i ==> r@[k],
            decreases n - i,
        {
            r.push(true);
            i = i + 1;
        }
        assert(r@ =~= all_usable(self.tree().len()));
        r
    }

    /// Parses `input` for a source that may use node `i` exactly when
    /// `usable[i]` holds: a node it may not use is never matched. The error,
    /// the node parsing stops at and the bound arguments are those of `walk`.
    #[verifier::spinoff_prover]
    #[verifier::rlimit(60)]
    pub fn parse_for(&self, input: &str, usable: &Vec<bool>) -> (r: ParseResults)
        requires
            self.wf(),
            usable@.len() == self.tree().len(),
        ensures
            forall|k: int| 0 <= k < r.contexts@.len() ==> usable_path(usable@, #[trigger] r.contexts@[k].nodes@),
            r.reader.wf(),
            r.reader.text() == input@,
            r.contexts@.len() > 0,
            forall|k: int| 0 <= k < r.contexts@.len() ==> bound_within(#[trigger] r.contexts@[k], input@.len() as int),
            is_chain(self.tree(), r.contexts@),
            r.error is None ==> r.reader.pos() == input@.len() && r.contexts@.last().command is Some
                && r.contexts@.last().command == self.tree()[r.contexts@.last().nodes@.last() as int].command,
            r.error matches Some(e) ==> e.1 == r.reader.pos(),
            r.error == walk_error(walk(self.tree(), usable@, input@, 0, 0, false, 0)),
            args_agree(all_arguments(r.contexts@), walk(self.tree(), usable@, input@, 0, 0, false, 0).bindings, input@),
            r.contexts@.last().nodes@.last() == walk(self.tree(), usable@, input@, 0, 0, false, 0).last,
    {
        let mut reader = StringReader::new(input);
        let mut contexts: Vec<CommandContext> = Vec::new();
        let mut current = CommandContext::new(0, false);
        let mut node: usize = 0;
        let mut need_sep = false;
        let mut hops: usize = 0;
        let count = self.nodes.len();
        let ghost tr = self.tree();
        let ghost s = input@;
        let ghost mut bound: Seq<Binding> = Seq::empty();
        proof {
            let w = walk(tr, usable@, s, 0, 0, false, 0);
            assert(after(bound, w) == w) by {
                assert(bound + w.bindings =~= w.bindings);
            }
            assert(all_arguments(contexts@) + current.arguments@ =~= Seq::<(String, ParsedArgument)>::empty());
        }
        loop
            invariant
                self.wf(),
                count == self.tree().len(),
                reader.wf(),
                reader.text() == input@,
                node < count,
                hops <= count,
                forall|k: int| 0 <= k < contexts@.len() ==> bound_within(#[trigger] contexts@[k], input@.len() as int),
                bound_within(current, reader.pos()),
                tr == self.tree(),
                s == input@,
                walk(tr, usable@, s, 0, 0, false, 0) == after(bound, walk(tr, usable@, s, node as int, reader.pos(), need_sep, hops as int)),
                args_agree(all_arguments(contexts@) + current.arguments@, bound, s),
                is_path(self.tree(), current.nodes@),
                current.nodes@.len() > 0 ==> self.tree()[current.nodes@.last() as int].children@.contains(node),
                usable@.len() == self.tree().len(),
                usable_path(usable@, current.nodes@),
                current.nodes@.len() > 0 ==> usable@[node as int],
                forall|k: int| 0 <= k < contexts@.len() ==> usable_path(usable@, #[trigger] contexts@[k].nodes@),
                contexts@.len() == 0 ==> if current.nodes@.len() == 0 {
                    node == 0
                } else {
                    current.nodes@[0] == 0
                },
                contexts@.len() > 0 ==> is_chain(self.tree(), contexts@) && if current.nodes@.len() == 0 {
                    self.tree()[contexts@.last().nodes@.last() as int].redirect == Some(node)
                } else {
                    self.tree()[contexts@.last().nodes@.last() as int].redirect == Some(current.nodes@[0])
                },
            decreases 2 * (reader.text().len() - reader.pos()) + (if need_sep {
                0int
            } else {
                1int
            }), count - hops,
        {
            let ghost path = current.nodes@;
            let ghost w0 = walk(tr, usable@, s, node as int, reader.pos(), need_sep, hops as int);
            current.nodes.push(node);
            proof {
                assert(current.nodes@ == path.push(node));
                assert forall|k: int| 0 <= k < current.nodes@.len() - 1 implies self.tree()[#[trigger] current.nodes@[k] as int].children@.contains(
                    current.nodes@[k + 1],
                ) by {
                    if k < path.len() - 1 {
                        assert(current.nodes@[k] == path[k] && current.nodes@[k + 1] == path[k + 1]);
                    } else {
                        assert(current.nodes@[k] == path.last());
                    }
                }
                if contexts@.len() > 0 {
                    lemma_chain_push(self.tree(), contexts@, current);
                }
                assert forall|k: int| 0 < k < current.nodes@.len() implies usable@[#[trigger] current.nodes@[k] as int] by {
                    if k < path.len() {
                        assert(current.nodes@[k] == path[k]);
                    }
                }
            }
            let pos = reader.get_cursor();
            match self.nodes[node].redirect {
                Some(target) => {
                    if hops >= count {
                        proof {
                            self.lemma_finish(contexts@, current, bound, w0);
                        }
                        contexts.push(current);
                        return ParseResults::new(contexts, reader, Some((BrigadierError::UnknownCommand, pos)));
                    }
                    let forks = self.nodes[node].forks;
                    current.range.end = pos;
                    let ghost old_current = current;
                    proof {
                        lemma_all_arguments_push(contexts@, current);
                    }
                    contexts.push(current);
                    current = CommandContext::new(pos, forks);
                    proof {
                        assert(all_arguments(contexts@) + current.arguments@ =~= all_arguments(contexts@));
                    }
                    node = target;
                    hops = hops + 1;
                    continue;
                },
                None => {},
            }
            if !reader.can_read_char() {
                current.range.end = pos;
                match self.nodes[node].command {
                    Some(c) => {
                        current.command = Some(c);
                        proof {
                            self.lemma_finish(contexts@, current, bound, w0);
                        }
                        contexts.push(current);
                        return ParseResults::new(contexts, reader, None);
                    },
                    None => {
                        proof {
                            self.lemma_finish(contexts@, current, bound, w0);
                        }
                        contexts.push(current);
                        return ParseResults::new(contexts, reader, Some((BrigadierError::IncompleteCommand, pos)));
                    },
                }
            }
            if self.nodes[node].children.len() == 0 {
                proof {
                    self.lemma_finish(contexts@, current, bound, w0);
                }
                contexts.push(current);
                return ParseResults::new(contexts, reader, Some((BrigadierError::TrailingData, pos)));
            }
            if need_sep {
                match reader.peek_char() {
                    Ok(ch) => {
                        if ch != ARGUMENT_SEPARATOR {
                            proof {
                                self.lemma_finish(contexts@, current, bound, w0);
                            }
                            contexts.push(current);
                            return ParseResults::new(
                                contexts,
                                reader,
                                Some((BrigadierError::ExpectedArgumentSeparator, pos)),
                            );
                        }
                    },
                    Err(_) => {},
                }
                reader.skip();
            } else {
                match reader.peek_char() {
                    Ok(ch) => {
                        if ch == ARGUMENT_SEPARATOR {
                            reader.skip();
                        }
                    },
                    Err(_) => {},
                }
            }
            let ghost q = reader.pos();
            let ghost args_before = current.arguments@;
            assert(q == if s[pos as int] == ARGUMENT_SEPARATOR {
                pos + 1
            } else {
                pos as int
            });
            match self.match_child(node, usable, &mut reader, &mut current) {
                Ok(c) => {
                    proof {
                        lemma_literal_pick(tr, usable@, s, node as int, q, 0);
                        lemma_argument_pick(tr, usable@, s, node as int, q, 0, None);
                        if literal_pick(tr, usable@, s, node as int, q, 0) is None {
                            assert(argument_pick(tr, usable@, s, node as int, q, 0, None) == Ok::<int, BrigadierError>(c as int));
                            let b = Binding {
                                name: node_name(tr[c as int].kind),
                                start: q,
                                end: outcome_end(argument_type_of(tr[c as int].kind), s, q),
                                argument_type: argument_type_of(tr[c as int].kind),
                            };
                            let rest = walk(tr, usable@, s, c as int, reader.pos(), true, 0);
                            assert(w0 == after(seq![b], rest));
                            assert(after(bound, after(seq![b], rest)) == after(bound.push(b), rest)) by {
                                assert(bound + (seq![b] + rest.bindings) =~= bound.push(b) + rest.bindings);
                            }
                            assert(current.arguments@ =~= args_before.push(current.arguments@.last()));
                            assert(all_arguments(contexts@) + current.arguments@ =~= (all_arguments(contexts@) + args_before).push(current.arguments@.last()));
                            lemma_args_agree_push(all_arguments(contexts@) + args_before, bound, s, current.arguments@.last(), b);
                            bound = bound.push(b);
                        } else {
                            assert(w0 == walk(tr, usable@, s, c as int, reader.pos(), true, 0));
                        }
                    }
                    node = c;
                    need_sep = true;
                    hops = 0;
                    current.range.end = reader.get_cursor();
                },
                Err(e) => {
                    let at = reader.get_cursor();
                    proof {
                        assert(w0 == stopped(e, q, node as int));
                        self.lemma_finish(contexts@, current, bound, w0);
                    }
                    contexts.push(current);
                    return ParseResults::new(contexts, reader, Some((e, at)));
                },
            }
        }
    }

    /// Whether `node` would match all of `input` taken alone: the literal
    /// itself, or a value of the argument's type followed by nothing or a separator.
    pub fn is_valid_input(&self, node: usize, input: &str) -> (r: bool)
        requires
            node < self.tree().len(),
        ensures
            r == valid_input(self.tree()[node as int].kind, input@),
    {
        match &self.nodes[node].kind {
            NodeKind::Root => false,
            NodeKind::Literal(l) => same_text(input, l.as_str()),
            NodeKind::Argument { name, argument_type } => {
                let mut reader = StringReader::new(input);
                match argument_type.parse(&mut reader) {
                    Ok(_) => match reader.peek_char() {
                        Ok(c) => c == ARGUMENT_SEPARATOR,
                        Err(_) => true,
                    },
                    Err(_) => false,
                }
            },
        }
    }

    /// Sample inputs for `node`: its literal, or its argument type's examples.
    pub fn get_examples(&self, node: usize) -> (r: Vec<String>)
        requires
            node < self.tree().len(),
        ensures
            views_of_strings(r@) == node_examples(self.tree()[node as int].kind),
    {
        match &self.nodes[node].kind {
            NodeKind::Root => {
                let v: Vec<String> = Vec::new();
                assert(views_of_strings(v@) =~= Seq::<Seq<char>>::empty());
                v
            },
            NodeKind::Literal(l) => {
                let mut v: Vec<String> = Vec::new();
                v.push(l.clone());
                assert(views_of_strings(v@) =~= seq![l@]);
                v
            },
            NodeKind::Argument { name, argument_type } => argument_type.get_examples(),
        }
    }

    /// The examples of `child` that `sibling` accepts as well.
    pub fn overlapping_inputs(&self, child: usize, sibling: usize) -> (r: Vec<String>)
        requires
            child < self.tree().len(),
            sibling < self.tree().len(),
        ensures
            views_of_strings(r@) == accepted_by(node_examples(self.tree()[child as int].kind), self.tree()[sibling as int].kind),
    {
        let examples = self.get_examples(child);
        let mut inputs: Vec<String> = Vec::new();
        let n = examples.len();
        assert(views_of_strings(inputs@) =~= accepted_by(views_of_strings(examples@).subrange(0, 0), self.tree()[sibling as int].kind));
        let mut i: usize = 0;
        while i < n
            invariant
                n == examples@.len(),
                i <= n,
                child < self.tree().len(),
                sibling < self.tree().len(),
                views_of_strings(examples@) == node_examples(self.tree()[child as int].kind),
                views_of_strings(inputs@) == accepted_by(views_of_strings(examples@).subrange(0, i as int), self.tree()[sibling as int].kind),
            decreases n - i,
        {
            let ghost ex = views_of_strings(examples@);
            assert(ex.subrange(0, i + 1).drop_last() =~= ex.subrange(0, i as int));
            assert(ex.subrange(0, i + 1).last() == examples@[i as int]@);
            if self.is_valid_input(sibling, examples[i].as_str()) {
                let ghost before = views_of_strings(inputs@);
                inputs.push(examples[i].clone());
                assert(views_of_strings(inputs@) =~= before.push(examples@[i as int]@));
            }
            i = i + 1;
        }
        assert(views_of_strings(examples@).subrange(0, n as int) =~= views_of_strings(examples@));
        inputs
    }

    /// Whether siblings `a` and `b` compete for the same input at parse time:
    /// a literal is always tried before any argument, so only two literals or
    /// two arguments can compete.
    pub fn same_rank(&self, a: usize, b: usize) -> (r: bool)
        requires
            a < self.tree().len(),
            b < self.tree().len(),
        ensures
            r == same_rank_kinds(self.tree()[a as int].kind, self.tree()[b as int].kind),
    {
        match (&self.nodes[a].kind, &self.nodes[b].kind) {
            (NodeKind::Literal(_), NodeKind::Literal(_)) => true,
            (NodeKind::Argument { .. }, NodeKind::Argument { .. }) => true,
            _ => false,
        }
    }

    /// `a` names two distinct children of one parent, of the same rank, and
    /// the examples of the first that the second accepts.
    pub open spec fn sound_report(&self, a: Ambiguity) -> bool {
        let t = self.tree();
        &&& a.parent < t.len()
        &&& t[a.parent as int].children@.contains(a.child)
        &&& t[a.parent as int].children@.contains(a.sibling)
        &&& a.child != a.sibling
        &&& same_rank_kinds(t[a.child as int].kind, t[a.sibling as int].kind)
        &&& views_of_strings(a.inputs@) == accepted_by(node_examples(t[a.child as int].kind), t[a.sibling as int].kind)
        &&& a.inputs@.len() > 0
    }

    /// The `i`-th and `j`-th children of node `p` compete for some input.
    pub open spec fn ambiguous_pair(&self, p: int, i: int, j: int) -> bool {
        let t = self.tree();
        let c = t[p].children@[i];
        let s = t[p].children@[j];
        &&& c != s
        &&& same_rank_kinds(t[c as int].kind, t[s as int].kind)
        &&& accepted_by(node_examples(t[c as int].kind), t[s as int].kind).len() > 0
    }

    /// Every ordered pair of distinct siblings of the same rank, anywhere in
    /// the tree, where the second accepts some example of the first: those are
    /// the places where "first match wins" decides. Each such pair is
    /// reported, with the examples that both accept.
    #[verifier::spinoff_prover]
    #[verifier::rlimit(30)]
    pub fn find_ambiguities(&self) -> (r: Vec<Ambiguity>)
        requires
            self.wf(),
        ensures
            forall|k: int| 0 <= k < r@.len() ==> self.sound_report(#[trigger] r@[k]),
            forall|p: int, i: int, j: int|
                0 <= p < self.tree().len() && 0 <= i < self.tree()[p].children@.len() && 0 <= j < self.tree()[p].children@.len()
                    && #[trigger] self.ambiguous_pair(p, i, j) ==> reports(
                    r@,
                    p,
                    self.tree()[p].children@[i],
                    self.tree()[p].children@[j],
                ),
    {
        let count = self.nodes.len();
        let mut found: Vec<Ambiguity> = Vec::new();
        let mut p: usize = 0;
        while p < count
            invariant
                self.wf(),
                count == self.tree().len(),
                p <= count,
                forall|k: int| 0 <= k < found@.len() ==> self.sound_report(#[trigger] found@[k]),
                forall|outer: int, first: int, second: int|
                    0 <= outer < p && 0 <= first < self.tree()[outer].children@.len() && 0 <= second < self.tree()[outer].children@.len()
                        && #[trigger] self.ambiguous_pair(outer, first, second) ==> reports(
                        found@,
                        outer,
                        self.tree()[outer].children@[first],
                        self.tree()[outer].children@[second],
                    ),
            decreases count - p,
        {
            let n = self.nodes[p].children.len();
            let mut i: usize = 0;
            while i < n
                invariant
                    self.wf(),
                    count == self.tree().len(),
                    p < count,
                    n == self.tree()[p as int].children@.len(),
                    i <= n,
                    forall|k: int| 0 <= k < found@.len() ==> self.sound_report(#[trigger] found@[k]),
                    forall|outer: int, first: int, second: int|
                        0 <= outer <= p && 0 <= first < self.tree()[outer].children@.len() && 0 <= second < self.tree()[outer].children@.len()
                            && (outer < p || first < i) && #[trigger] self.ambiguous_pair(outer, first, second) ==> reports(
                            found@,
                            outer,
                            self.tree()[outer].children@[first],
                            self.tree()[outer].children@[second],
                        ),
                decreases n - i,
            {
                let mut j: usize = 0;
                while j < n
                    invariant
                        self.wf(),
                        count == self.tree().len(),
                        p < count,
                        n == self.tree()[p as int].children@.len(),
                        i < n,
                        j <= n,
                        forall|k: int| 0 <= k < found@.len() ==> self.sound_report(#[trigger] found@[k]),
                        forall|outer: int, first: int, second: int|
                            0 <= outer <= p && 0 <= first < self.tree()[outer].children@.len() && 0 <= second < self.tree()[outer].children@.len()
                                && (outer < p || first < i || (first == i && second < j)) && #[trigger] self.ambiguous_pair(outer, first, second) ==> reports(
                                found@,
                                outer,
                                self.tree()[outer].children@[first],
                                self.tree()[outer].children@[second],
                            ),
                    decreases n - j,
                {
                    let child = self.nodes[p].children[i];
                    let sibling = self.nodes[p].children[j];
                    if child != sibling && self.same_rank(child, sibling) {
                        let inputs = self.overlapping_inputs(child, sibling);
                        if inputs.len() > 0 {
                            let amb = Ambiguity { parent: p, child, sibling, inputs };
                            assert(self.tree()[p as int].children@[i as int] == child);
                            assert(self.tree()[p as int].children@[j as int] == sibling);
                            assert(self.sound_report(amb));
                            let ghost before = found@;
                            found.push(amb);
                            assert(found@ == before.push(amb));
                            assert forall|k: int| 0 <= k < found@.len() implies self.sound_report(#[trigger] found@[k]) by {
                                if k < before.len() {
                                    assert(found@[k] == before[k]);
                                }
                            }
                            assert forall|outer: int, first: int, second: int|
                                0 <= outer <= p && 0 <= first < self.tree()[outer].children@.len() && 0 <= second < self.tree()[outer].children@.len()
                                    && (outer < p || first < i || (first == i && second < j + 1)) && #[trigger] self.ambiguous_pair(outer, first, second) implies reports(
                                    found@,
                                    outer,
                                    self.tree()[outer].children@[first],
                                    self.tree()[outer].children@[second],
                                ) by {
                                if outer == p && first == i && second == j {
                                    assert(found@[before.len() as int] == amb);
                                } else {
                                    lemma_reports_push(before, amb, outer, self.tree()[outer].children@[first], self.tree()[outer].children@[second]);
                                }
                            }
                        } else {
                            assert(!self.ambiguous_pair(p as int, i as int, j as int));
                        }
                    } else {
                        assert(!self.ambiguous_pair(p as int, i as int, j as int));
                    }
                    j = j + 1;
                }
                i = i + 1;
            }
            p = p + 1;
        }
        found
    }

    /// Completions for a partly typed line. The text before the last
    /// separator is parsed; where it leads to (or runs out at) a node, every
    /// child of that node offers completions for the token being typed: a
    /// literal offers itself when it extends the typed text, ignoring case; an
    /// argument offers what its type offers. The offers are merged into one
    /// list sorted by text. Input that does not parse up to the last token
    /// gets no completions.
    pub fn get_completion_suggestions(&self, input: &str) -> (r: Suggestions)
        requires
            self.wf(),
        ensures
            sorted_by_text(r@.list),
            all_within(r@.list, input@.len() as int),
            match completion_entries(self.tree(), all_usable(self.tree().len()), input@) {
                None => r@.list.len() == 0 && r@.range == StringRange::spec_new(0, 0),
                Some(entries) => merged_from(input@, entries, r@),
            },
    {
        let usable = self.everything_usable();
        self.get_completion_suggestions_for(input, &usable)
    }

    /// Completions for a source that may use node `i` exactly when
    /// `usable[i]` holds: a node it may not use offers nothing.
    #[verifier::spinoff_prover]
    #[verifier::rlimit(30)]
    pub fn get_completion_suggestions_for(&self, input: &str, usable: &Vec<bool>) -> (r: Suggestions)
        requires
            self.wf(),
            usable@.len() == self.tree().len(),
        ensures
            sorted_by_text(r@.list),
            all_within(r@.list, input@.len() as int),
            match completion_entries(self.tree(), usable@, input@) {
                None => r@.list.len() == 0 && r@.range == StringRange::spec_new(0, 0),
                Some(entries) => merged_from(input@, entries, r@),
            },
    {
        let ghost tr = self.tree();
        let chars = chars_of(input);
        let n = chars.len();
        assert(n == input@.len());
        let mut start: usize = n;
        while start > 0 && chars[start - 1] != ARGUMENT_SEPARATOR
            invariant
                start <= n == chars@.len(),
                chars@ == input@,
                token_start(input@, n as int) == token_start(input@, start as int),
            decreases start,
        {
            start = start - 1;
        }
        let prefix_end = if start > 0 {
            start - 1
        } else {
            0
        };
        let prefix = input.substring_char(0, prefix_end);
        let parsed = self.parse_for(prefix, usable);
        let ghost w = walk(tr, usable@, prefix@, 0, 0, false, 0);
        assert(start as int == token_start(input@, input@.len() as int));
        assert(prefix@ == input@.subrange(0, if start > 0 {
            start - 1
        } else {
            0
        }));
        let reached = match parsed.error {
            None => true,
            Some((BrigadierError::IncompleteCommand, _)) => true,
            _ => false,
        };
        assert(reached == (w.error is None || w.error->Some_0.0 == BrigadierError::IncompleteCommand));
        if !reached {
            let e = Suggestions::empty();
            assert(e@.list =~= Seq::<SuggestionView>::empty());
            return e;
        }
        let contexts = parsed.get_context();
        let last = &contexts[contexts.len() - 1];
        assert(is_path(self.tree(), last.nodes@));
        let frontier = last.nodes[last.nodes.len() - 1];
        assert(frontier == w.last);
        let count = self.nodes[frontier].children.len();
        let mut builder = SuggestionsBuilder::new(input, start);
        let ghost init = builder@;
        let mut j: usize = 0;
        while j < count
            invariant
                self.wf(),
                tr == self.tree(),
                frontier < self.tree().len(),
                count == self.tree()[frontier as int].children@.len(),
                usable@.len() == self.tree().len(),
                j <= count,
                builder.wf(),
                builder@ == child_offers(tr, usable@, frontier as int, j as int, init),
                init.input == input@,
                builder@.input == input@,
            decreases count - j,
        {
            let c = self.nodes[frontier].children[j];
            if usable[c] {
                match &self.nodes[c].kind {
                    NodeKind::Literal(l) => {
                        if starts_with(lowercase(l.as_str()).as_str(), builder.get_remaining_lower_case()) {
                            builder.suggest(l.as_str());
                        }
                    },
                    NodeKind::Argument { name, argument_type } => {
                        argument_type.list_suggestions(&mut builder);
                    },
                    NodeKind::Root => {},
                }
            }
            j = j + 1;
        }
        proof {
            builder.lemma_within();
        }
        let r = builder.build();
        proof {
            if r@.list.len() > 0 {
                lemma_merged_within(builder@.input, builder@.result, r@, input@.len() as int);
            }
        }
        r
    }
}

/// Two distinct argument siblings of numeric type (integer or long) whose
/// bounds both admit zero compete for the same input, so `find_ambiguities`
/// reports them.
pub proof fn lemma_numeric_siblings_ambiguous(d: &CommandDispatcher, p: int, i: int, j: int)
    requires
        d.wf(),
        0 <= p < d.tree().len(),
        0 <= i < d.tree()[p].children@.len(),
        0 <= j < d.tree()[p].children@.len(),
        d.tree()[p].children@[i] != d.tree()[p].children@[j],
        d.tree()[d.tree()[p].children@[i] as int].kind is Argument,
        d.tree()[d.tree()[p].children@[j] as int].kind is Argument,
        numeric_admitting_zero(argument_type_of(d.tree()[d.tree()[p].children@[i] as int].kind)),
        numeric_admitting_zero(argument_type_of(d.tree()[d.tree()[p].children@[j] as int].kind)),
    ensures
        d.ambiguous_pair(p, i, j),
{
    let kind = d.tree()[d.tree()[p].children@[j] as int].kind;
    reveal_strlit("0");
    reveal_strlit("123");
    reveal_strlit("-123");
    assert("0"@ =~= seq!['0']);
    lemma_numeric_accepts_zero(argument_type_of(kind));
    let ex = seq!["0"@, "123"@, "-123"@];
    let one = seq!["0"@];
    assert(one.drop_last() =~= Seq::<Seq<char>>::empty());
    assert(valid_input(kind, one.last()));
    assert(accepted_by(one.drop_last(), kind).len() == 0);
    assert(accepted_by(one, kind).len() == 1);
    assert(ex.drop_last().drop_last() =~= one);
    lemma_accepted_by_grows(ex.drop_last(), kind);
    lemma_accepted_by_grows(ex, kind);
    assert(node_examples(d.tree()[d.tree()[p].children@[i] as int].kind) == ex);
}

/// A literal and an argument under one parent never compete, whatever they
/// accept: the literal is always tried first. No report names such a pair.
pub proof fn lemma_literal_argument_never_ambiguous(d: &CommandDispatcher, p: int, i: int, j: int)
    requires
        d.wf(),
        0 <= p < d.tree().len(),
        0 <= i < d.tree()[p].children@.len(),
        0 <= j < d.tree()[p].children@.len(),
        d.tree()[d.tree()[p].children@[i] as int].kind is Literal,
        d.tree()[d.tree()[p].children@[j] as int].kind is Argument,
    ensures
        !d.ambiguous_pair(p, i, j),
        !d.ambiguous_pair(p, j, i),
{
}

} // verus!

verus! {

/// The tree root → `foo` → `bar` (an integer in `[0, 100]`, carrying a
/// command), with no other node.
pub open spec fn is_foo_bar(t: Seq<CommandNode>) -> bool {
    &&& t.len() == 3
    &&& t[0].children@ == seq![1usize]
    &&& t[0].redirect is None
    &&& t[1].kind is Literal
    &&& node_name(t[1].kind) == seq!['f', 'o', 'o']
    &&& t[1].children@ == seq![2usize]
    &&& t[1].redirect is None
    &&& t[1].command is None
    &&& t[2].kind is Argument
    &&& node_name(t[2].kind) == seq!['b', 'a', 'r']
    &&& argument_type_of(t[2].kind) == ArgumentType::Integer(IntegerArgumentType { min: 0, max: 100 })
    &&& t[2].children@.len() == 0
    &&& t[2].redirect is None
    &&& t[2].command is Some
}

/// On that tree, `foo 42` succeeds at `bar` and binds `bar` to 42 over
/// `[4, 6)`; `foo 200` fails with `IntegerTooHigh { result: 200, max: 100 }`
/// at offset 4; `foo` fails as an incomplete command at offset 3.
pub proof fn lemma_foo_bar_outcomes(t: Seq<CommandNode>)
    requires
        is_foo_bar(t),
    ensures
        ({
            let s = seq!['f', 'o', 'o', ' ', '4', '2'];
            let w = walk(t, all_usable(3), s, 0, 0, false, 0);
            &&& w.error is None
            &&& w.last == 2
            &&& w.bindings == seq![Binding { name: seq!['b', 'a', 'r'], start: 4, end: 6, argument_type: argument_type_of(t[2].kind) }]
            &&& outcome_is(argument_type_of(t[2].kind), s, 4, Ok(ParsedValue::Integer(42)))
        }),
        walk(t, all_usable(3), seq!['f', 'o', 'o', ' ', '2', '0', '0'], 0, 0, false, 0).error == Some(
            (BrigadierError::IntegerTooHigh { result: 200, max: 100 }, 4int),
        ),
        walk(t, all_usable(3), seq!['f', 'o', 'o'], 0, 0, false, 0).error == Some((BrigadierError::IncompleteCommand, 3int)),
{
    let u = all_usable(3);
    assert(u[0] && u[1] && u[2]);
    let it = IntegerArgumentType { min: 0, max: 100 };
    let s = seq!['f', 'o', 'o', ' ', '4', '2'];
    assert(s.subrange(0, 3) =~= seq!['f', 'o', 'o']);
    assert(literal_at(s, 0, node_name(t[1].kind)));
    assert(literal_pick(t, u, s, 1, 4, 1) is None);
    assert(literal_pick(t, u, s, 1, 4, 0) is None);
    assert(literal_pick(t, u, s, 0, 0, 0) == Some(1int));
    assert(number_end(s, 6) == 6);
    assert(number_end(s, 5) == 6);
    assert(number_end(s, 4) == 6);
    let tok = s.subrange(4, 6);
    assert(tok =~= seq!['4', '2']);
    assert(tok.drop_last() =~= seq!['4']);
    assert(tok.drop_last().drop_last() =~= Seq::<char>::empty());
    let four = seq!['4'];
    assert(four.drop_last() =~= Seq::<char>::empty());
    assert(four.last() == '4');
    assert(digits_value(four.drop_last()) == 0);
    assert(('4' as int) - ('0' as int) == 4);
    assert(digits_value(four) == 4);
    assert(digits_value(tok) == 42);
    assert(all_digits(tok));
    assert(decimal_value(tok) == Some(42int));
    assert(integer_outcome(it, s, 4).0 == Ok::<i32, BrigadierError>(42));
    assert(argument_pick(t, u, s, 1, 4, 1, None) == Err::<int, BrigadierError>(BrigadierError::UnknownCommand));
    assert(argument_pick(t, u, s, 1, 4, 0, None) == Ok::<int, BrigadierError>(2));
    assert(walk(t, u, s, 2, 6, true, 0) == Walk { error: None, last: 2, bindings: Seq::empty() });
    assert(walk(t, u, s, 1, 3, true, 0).bindings =~= seq![Binding { name: seq!['b', 'a', 'r'], start: 4, end: 6, argument_type: argument_type_of(t[2].kind) }]);
    assert(walk(t, u, s, 0, 0, false, 0) == walk(t, u, s, 1, 3, true, 0));
    let s2 = seq!['f', 'o', 'o', ' ', '2', '0', '0'];
    assert(s2.subrange(0, 3) =~= seq!['f', 'o', 'o']);
    assert(literal_at(s2, 0, node_name(t[1].kind)));
    assert(literal_pick(t, u, s2, 1, 4, 1) is None);
    assert(literal_pick(t, u, s2, 1, 4, 0) is None);
    assert(literal_pick(t, u, s2, 0, 0, 0) == Some(1int));
    assert(number_end(s2, 7) == 7);
    assert(number_end(s2, 6) == 7);
    assert(number_end(s2, 5) == 7);
    assert(number_end(s2, 4) == 7);
    let tok2 = s2.subrange(4, 7);
    assert(tok2 =~= seq!['2', '0', '0']);
    assert(tok2.drop_last() =~= seq!['2', '0']);
    assert(seq!['2', '0'].drop_last() =~= seq!['2']);
    assert(seq!['2'].drop_last() =~= Seq::<char>::empty());
    assert(digits_value(seq!['2']) == 2);
    assert(digits_value(seq!['2', '0']) == 20);
    assert(digits_value(tok2) == 200);
    assert(all_digits(tok2));
    assert(decimal_value(tok2) == Some(200int));
    assert(outcome_ok(argument_type_of(t[2].kind), s2, 4) == false);
    assert(outcome_error(argument_type_of(t[2].kind), s2, 4) == BrigadierError::IntegerTooHigh { result: 200, max: 100 });
    assert(argument_pick(t, u, s2, 1, 4, 1, Some(BrigadierError::IntegerTooHigh { result: 200, max: 100 })) == Err::<int, BrigadierError>(
        BrigadierError::IntegerTooHigh { result: 200, max: 100 },
    ));
    assert(argument_pick(t, u, s2, 1, 4, 0, None) == Err::<int, BrigadierError>(BrigadierError::IntegerTooHigh { result: 200, max: 100 }));
    assert(walk(t, u, s2, 0, 0, false, 0) == walk(t, u, s2, 1, 3, true, 0));
    let s3 = seq!['f', 'o', 'o'];
    assert(s3.subrange(0, 3) =~= s3);
    assert(literal_at(s3, 0, node_name(t[1].kind)));
    assert(literal_pick(t, u, s3, 0, 0, 0) == Some(1int));
    assert(walk(t, u, s3, 0, 0, false, 0) == walk(t, u, s3, 1, 3, true, 0));
}

} // verus!
