use brigadier::arguments::string_argument_type::StringType;
use brigadier::arguments::{BoolArgumentType, IntegerArgumentType, StringArgumentType};
use brigadier::command_dispatcher::{dispatch_outcome, expand_sources, tally_fork, CommandDispatcher, SINGLE_SUCCESS};
use brigadier::context::command_context::{ArgumentType, ParsedValue};
use brigadier::context::string_range::StringRange;
use brigadier::error::BrigadierError;
use brigadier::suggestion::suggestion::Suggestion;

fn foo_bar() -> CommandDispatcher {
    let mut d = CommandDispatcher::new();
    let root = d.get_root();
    let foo = d.add_literal(root, "foo");
    let bar = d.add_argument(foo, "bar", ArgumentType::Integer(IntegerArgumentType::new().with_range(0, 100)));
    d.executes(bar, 7);
    d
}

#[test]
fn parse() {
    let d = foo_bar();
    let r = d.parse("foo 42");
    assert_eq!(r.error, None);
    let ctx = r.get_context().last().unwrap();
    assert_eq!(ctx.command, Some(7));
    let arg = ctx.get_argument("bar").unwrap();
    assert_eq!(arg.get_result(), &Ok(ParsedValue::Integer(42)));
    assert_eq!(arg.get_range(), StringRange::between(4, 6));
    assert_eq!(r.get_reader().get_remaining_length(), 0);
}

#[test]
fn parse_out_of_range_argument() {
    let d = foo_bar();
    let r = d.parse("foo 200");
    assert_eq!(r.error, Some((BrigadierError::IntegerTooHigh { result: 200, max: 100 }, 4)));
    assert_eq!(r.get_context().len(), 1);
}

#[test]
fn parse_incomplete() {
    let d = foo_bar();
    let r = d.parse("foo");
    assert_eq!(r.error, Some((BrigadierError::IncompleteCommand, 3)));
}

#[test]
fn parse_unknown_literal_and_trailing_data() {
    let d = foo_bar();
    assert_eq!(d.parse("bar 1").error, Some((BrigadierError::UnknownCommand, 0)));
    assert_eq!(d.parse("foo 1 2").error, Some((BrigadierError::TrailingData, 5)));
    assert_eq!(d.parse("foox").error, Some((BrigadierError::UnknownCommand, 0)));
}

#[test]
fn parse_follows_redirect() {
    let mut d = foo_bar();
    let root = d.get_root();
    let alias = d.add_literal(root, "alias");
    let foo = d.get_child(root, "foo").unwrap();
    d.redirect(alias, foo, true);
    let r = d.parse("alias 5");
    assert_eq!(r.error, None);
    assert_eq!(r.get_context().len(), 2);
    assert!(r.get_context()[1].forks);
    assert_eq!(r.get_context()[1].command, Some(7));
}

#[test]
fn redirect_cycle_without_input_stops() {
    let mut d = CommandDispatcher::new();
    let root = d.get_root();
    let a = d.add_literal(root, "a");
    let b = d.add_literal(root, "b");
    d.redirect(a, b, false);
    d.redirect(b, a, false);
    let r = d.parse("a");
    assert!(r.error.is_some());
}

#[test]
fn fork_keeps_running_after_failure() {
    let results = vec![Ok(SINGLE_SUCCESS), Err(BrigadierError::UnknownCommand), Ok(SINGLE_SUCCESS)];
    let out = tally_fork(&results);
    assert_eq!(out.successes, 2);
    assert_eq!(out.result, 2);
    assert_eq!(out.failures, vec![(1, BrigadierError::UnknownCommand)]);
}

#[test]
fn numeric_siblings_are_ambiguous() {
    let mut d = CommandDispatcher::new();
    let root = d.get_root();
    let a = d.add_argument(root, "a", ArgumentType::Integer(IntegerArgumentType::new()));
    let b = d.add_argument(root, "b", ArgumentType::Integer(IntegerArgumentType::new()));
    let found = d.find_ambiguities();
    assert!(found.iter().any(|x| x.child == a && x.sibling == b));
    assert!(found.iter().any(|x| x.child == b && x.sibling == a));
}

#[test]
fn literal_and_word_argument_not_ambiguous() {
    let mut d = CommandDispatcher::new();
    let root = d.get_root();
    d.add_literal(root, "foo");
    d.add_argument(root, "name", ArgumentType::String(StringArgumentType::new(StringType::Word)));
    let found = d.find_ambiguities();
    assert!(found.is_empty());
    assert!(d.is_valid_input(1, "foo"));
    assert!(!d.is_valid_input(1, "fo"));
}

fn completion_texts(d: &CommandDispatcher, input: &str) -> Vec<String> {
    d.get_completion_suggestions(input).get_list().iter().map(|s| s.get_text().to_string()).collect()
}

#[test]
fn completes_literals_and_booleans() {
    let mut d = foo_bar();
    let root = d.get_root();
    let set = d.add_literal(root, "set");
    let flag = d.add_argument(set, "flag", ArgumentType::Bool(BoolArgumentType));
    d.executes(flag, 1);
    assert_eq!(completion_texts(&d, ""), vec!["foo", "set"]);
    assert_eq!(completion_texts(&d, "FO"), vec!["foo"]);
    assert_eq!(completion_texts(&d, "set "), vec!["false", "true"]);
    let s = d.get_completion_suggestions("set t");
    assert_eq!(s.get_list(), &[Suggestion::new(StringRange::between(4, 5), "true".to_owned())]);
    assert!(completion_texts(&d, "foo ").is_empty());
    assert!(completion_texts(&d, "nope x").is_empty());
}

#[test]
fn parse_separator_rules() {
    let d = foo_bar();
    assert_eq!(d.parse(" foo 42").error, None);
    assert_eq!(d.parse("foo 42x").error, Some((BrigadierError::ExpectedArgumentSeparator, 4)));
    assert_eq!(d.parse("foo  42").error, Some((BrigadierError::ExpectedInt, 4)));
}

#[test]
fn unusable_nodes_are_skipped() {
    let mut d = foo_bar();
    let root = d.get_root();
    let admin = d.add_literal(root, "admin");
    d.executes(admin, 9);
    let mut usable = vec![true; 4];
    usable[admin] = false;
    assert_eq!(d.parse_for("admin", &usable).error, Some((BrigadierError::UnknownCommand, 0)));
    assert_eq!(d.parse("admin").error, None);
    let texts: Vec<String> = d
        .get_completion_suggestions_for("", &usable)
        .get_list()
        .iter()
        .map(|s| s.get_text().to_string())
        .collect();
    assert_eq!(texts, vec!["foo"]);
}

#[test]
fn fork_over_three_sources_with_one_failure() {
    let calls: Vec<Result<Vec<u32>, BrigadierError>> = vec![Ok(vec![1, 2, 3])];
    let (sources, failed) = expand_sources(calls);
    assert_eq!(sources, vec![1, 2, 3]);
    assert!(failed.is_empty());
    let mut invoked = Vec::new();
    let results: Vec<Result<i32, BrigadierError>> = sources
        .iter()
        .map(|s| {
            invoked.push(*s);
            if *s == 2 { Err(BrigadierError::UnknownCommand) } else { Ok(SINGLE_SUCCESS) }
        })
        .collect();
    assert_eq!(invoked, vec![1, 2, 3]);
    let out = dispatch_outcome(true, &results).unwrap();
    assert_eq!(out.successes, 2);
    assert_eq!(out.failures, vec![(1, BrigadierError::UnknownCommand)]);
}

#[test]
fn failed_modifier_is_recorded() {
    let calls: Vec<Result<Vec<u32>, BrigadierError>> =
        vec![Ok(vec![1]), Err(BrigadierError::TrailingData), Ok(vec![4, 5])];
    let (sources, failed) = expand_sources(calls);
    assert_eq!(sources, vec![1, 4, 5]);
    assert_eq!(failed, vec![(1, BrigadierError::TrailingData)]);
}

#[test]
fn unforked_failure_is_passed_back() {
    let results = vec![Err(BrigadierError::IncompleteCommand)];
    assert_eq!(dispatch_outcome(false, &results), Err(BrigadierError::IncompleteCommand));
    let ok = dispatch_outcome(false, &vec![Ok(5)]).unwrap();
    assert_eq!(ok.result, 5);
}

#[test]
fn parse_binds_through_redirect_chain() {
    let mut d = foo_bar();
    let root = d.get_root();
    let run = d.add_literal(root, "run");
    d.redirect(run, root, false);
    let r = d.parse("run foo 9");
    assert_eq!(r.error, None);
    assert_eq!(r.get_context().len(), 2);
    let arg = r.get_context()[1].get_argument("bar").unwrap();
    assert_eq!(arg.get_result(), &Ok(ParsedValue::Integer(9)));
}
