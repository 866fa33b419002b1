use brigadier::context::string_range::StringRange;
use brigadier::error::BrigadierError;
use brigadier::string_reader::StringReader;
use brigadier::suggestion::suggestion::Suggestion;
use brigadier::suggestion::suggestions::Suggestions;

#[test]
fn malformed_number_resets_cursor() {
    let mut reader = StringReader::new("x 12.34.56");
    reader.set_cursor(2);
    assert_eq!(reader.read_long(), Err(BrigadierError::InvalidLong));
    assert_eq!(reader.get_cursor(), 2);
    let mut reader = StringReader::new("1-2");
    assert_eq!(reader.read_int(), Err(BrigadierError::InvalidInt));
    assert_eq!(reader.get_cursor(), 0);
    let mut reader = StringReader::new("-");
    assert_eq!(reader.read_int(), Err(BrigadierError::InvalidInt));
    assert_eq!(reader.get_cursor(), 0);
}

#[test]
fn empty_number_keeps_cursor() {
    let mut reader = StringReader::new("12 abc");
    reader.set_cursor(3);
    assert_eq!(reader.read_int(), Err(BrigadierError::ExpectedInt));
    assert_eq!(reader.get_cursor(), 3);
    reader.set_cursor(6);
    assert_eq!(reader.read_long(), Err(BrigadierError::ExpectedLong));
    assert_eq!(reader.get_cursor(), 6);
}

#[test]
fn escaped_backslash_reads_whole_input() {
    let mut reader = StringReader::new("\"\\\\o/\"");
    assert_eq!(reader.read_quoted_string().unwrap(), "\\o/");
    assert_eq!(reader.get_remaining_length(), 0);
}

#[test]
fn peek_past_end_is_eof() {
    let reader = StringReader::new("ab");
    assert_eq!(reader.peek(2), Err(BrigadierError::EOF));
    assert_eq!(reader.peek(1), Ok('b'));
}

#[test]
fn number_token_for_outside_conversion() {
    let mut reader = StringReader::new("-1.5e x");
    assert_eq!(reader.read_number_token(), "-1.5");
    assert_eq!(reader.get_cursor(), 4);
}

#[test]
fn merge_sorts_texts() {
    let one = |t: &str| Suggestions::new(StringRange::between(6, 7), vec![Suggestion::new(StringRange::between(6, 7), t.to_owned())]);
    let merged = Suggestions::merge("Hello w", vec![one("world!"), one("everybody"), one("weekend")]);
    assert_eq!(merged.get_range(), &StringRange::between(6, 7));
    let texts: Vec<&str> = merged.get_list().iter().map(Suggestion::get_text).collect();
    assert_eq!(texts, vec!["everybody", "weekend", "world!"]);
}

#[test]
fn merge_widens_to_union_range() {
    let a = Suggestions::new(StringRange::at(4), vec![Suggestion::new(StringRange::at(4), "x".to_owned())]);
    let b = Suggestions::new(StringRange::between(0, 3), vec![Suggestion::new(StringRange::between(0, 3), "abc".to_owned())]);
    let merged = Suggestions::merge("foo bar", vec![a, b]);
    assert_eq!(merged.get_range(), &StringRange::between(0, 4));
    let texts: Vec<&str> = merged.get_list().iter().map(Suggestion::get_text).collect();
    assert_eq!(texts, vec!["abc ", "foo x"]);
}

#[test]
fn merge_of_none_and_one() {
    assert!(Suggestions::merge("abc", vec![]).is_empty());
    let single = Suggestions::new(StringRange::at(1), vec![Suggestion::new(StringRange::at(1), "z".to_owned())]);
    let merged = Suggestions::merge("abc", vec![single]);
    assert_eq!(merged.get_range(), &StringRange::at(1));
    assert_eq!(merged.get_list().len(), 1);
}

#[test]
fn create_collapses_equal_texts() {
    let s = vec![
        Suggestion::new(StringRange::at(0), "b".to_owned()),
        Suggestion::new(StringRange::at(0), "a".to_owned()).with_tooltip("first".to_owned()),
        Suggestion::new(StringRange::at(0), "a".to_owned()),
    ];
    let r = Suggestions::create("", s);
    assert_eq!(r.get_list().len(), 2);
    assert_eq!(r.get_list()[0].get_text(), "a");
    assert_eq!(r.get_list()[0].get_tooltip(), Some("first"));
    assert_eq!(r.get_list()[1].get_text(), "b");
}

#[test]
fn range_helpers() {
    let r = StringRange::encompassing(&StringRange::between(3, 5), &StringRange::between(1, 4));
    assert_eq!(r, StringRange::between(1, 5));
    assert_eq!(r.get_length(), 4);
    assert!(!r.is_empty());
    assert!(StringRange::at(2).is_empty());
}

#[test]
fn range_text() {
    let r = StringRange::between(6, 11);
    assert_eq!(r.get_from_string("Hello World!"), "World");
    assert_eq!(r.get_from_string_reader(StringReader::new("Hello World!")), "World");
}

#[test]
fn number_tokens_take_ascii_digits_only() {
    let mut reader = StringReader::new("½");
    assert_eq!(reader.read_int(), Err(BrigadierError::ExpectedInt));
    assert_eq!(reader.get_cursor(), 0);
    let mut reader = StringReader::new("12½");
    assert_eq!(reader.read_int(), Ok(12));
    assert_eq!(reader.get_cursor(), 2);
}
