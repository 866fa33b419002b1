use brigadier::arguments::string_argument_type::StringType;
use brigadier::arguments::{BoolArgumentType, IntegerArgumentType, LongArgumentType, StringArgumentType};
use brigadier::error::BrigadierError;
use brigadier::string_reader::StringReader;
use brigadier::suggestion::suggestion::Suggestion;
use brigadier::suggestion::suggestions_builder::SuggestionsBuilder;

#[test]
fn integer_in_range() {
    let mut reader = StringReader::new("42 rest");
    let t = IntegerArgumentType::new().with_range(0, 100);
    assert_eq!(t.parse(&mut reader), Ok(42));
    assert_eq!(reader.get_cursor(), 2);
}

#[test]
fn integer_too_high_resets_cursor() {
    let mut reader = StringReader::new("foo 200");
    reader.set_cursor(4);
    let t = IntegerArgumentType::new().with_range(0, 100);
    assert_eq!(
        t.parse(&mut reader),
        Err(BrigadierError::IntegerTooHigh { result: 200, max: 100 })
    );
    assert_eq!(reader.get_cursor(), 4);
}

#[test]
fn integer_too_low_resets_cursor() {
    let mut reader = StringReader::new("-5");
    let t = IntegerArgumentType::new().with_min(0);
    assert_eq!(
        t.parse(&mut reader),
        Err(BrigadierError::IntegerTooLow { result: -5, min: 0 })
    );
    assert_eq!(reader.get_cursor(), 0);
}

#[test]
fn integer_overflow_is_invalid() {
    let mut reader = StringReader::new("2147483648");
    assert_eq!(IntegerArgumentType::new().parse(&mut reader), Err(BrigadierError::InvalidInt));
    assert_eq!(reader.get_cursor(), 0);
    let mut reader = StringReader::new("-2147483648");
    assert_eq!(IntegerArgumentType::new().parse(&mut reader), Ok(i32::MIN));
}

#[test]
fn long_bounds() {
    let t = LongArgumentType::new().with_range(-10, 10);
    let mut reader = StringReader::new("11");
    assert_eq!(t.parse(&mut reader), Err(BrigadierError::LongTooHigh { result: 11, max: 10 }));
    let mut reader = StringReader::new("-11");
    assert_eq!(t.parse(&mut reader), Err(BrigadierError::LongTooLow { result: -11, min: -10 }));
    let mut reader = StringReader::new("9223372036854775807");
    assert_eq!(LongArgumentType::new().parse(&mut reader), Ok(i64::MAX));
    let mut reader = StringReader::new("9223372036854775808");
    assert_eq!(LongArgumentType::new().parse(&mut reader), Err(BrigadierError::InvalidLong));
}

#[test]
fn integer_examples() {
    assert_eq!(IntegerArgumentType::new().get_examples(), vec!["0", "123", "-123"]);
    assert_eq!(LongArgumentType::new().get_examples(), vec!["0", "123", "-123"]);
}

#[test]
fn bool_parse() {
    let mut reader = StringReader::new("false x");
    assert_eq!(BoolArgumentType.parse(&mut reader), Ok(false));
    assert_eq!(reader.get_cursor(), 5);
}

#[test]
fn bool_suggestions_follow_prefix() {
    let mut builder = SuggestionsBuilder::new("t", 0);
    let result = BoolArgumentType.list_suggestions(&mut builder);
    let texts: Vec<&str> = result.get_list().iter().map(Suggestion::get_text).collect();
    assert_eq!(texts, vec!["true"]);
}

#[test]
fn bool_suggestions_ignore_case() {
    let mut builder = SuggestionsBuilder::new("cmd F", 4);
    assert_eq!(builder.get_remaining_lower_case(), "f");
    let result = BoolArgumentType.list_suggestions(&mut builder);
    let texts: Vec<&str> = result.get_list().iter().map(Suggestion::get_text).collect();
    assert_eq!(texts, vec!["false"]);
}

#[test]
fn bool_suggestions_empty_input() {
    let mut builder = SuggestionsBuilder::new("", 0);
    let result = BoolArgumentType.list_suggestions(&mut builder);
    let texts: Vec<&str> = result.get_list().iter().map(Suggestion::get_text).collect();
    assert_eq!(texts, vec!["false", "true"]);
    assert_eq!(BoolArgumentType.get_examples(), vec!["true", "false"]);
}

#[test]
fn string_word() {
    let t = StringArgumentType::new(StringType::Word);
    let mut reader = StringReader::new("hello world");
    assert_eq!(t.parse(&mut reader), Ok("hello".to_string()));
    assert_eq!(reader.get_cursor(), 5);
    assert_eq!(*t.get_type(), StringType::Word);
}

#[test]
fn string_quotable() {
    let t = StringArgumentType::new(StringType::Quotable);
    let mut reader = StringReader::new("\"hello world\" x");
    assert_eq!(t.parse(&mut reader), Ok("hello world".to_string()));
    assert_eq!(reader.get_cursor(), 13);
}

#[test]
fn string_greedy() {
    let t = StringArgumentType::new(StringType::Greedy);
    let mut reader = StringReader::new("say \"hi\" there");
    reader.set_cursor(4);
    assert_eq!(t.parse(&mut reader), Ok("\"hi\" there".to_string()));
    assert_eq!(reader.get_cursor(), 14);
    assert_eq!(reader.get_remaining_length(), 0);
}

#[test]
fn string_examples() {
    assert_eq!(
        StringArgumentType::new(StringType::Greedy).get_examples(),
        vec!["word", "word with spaces", "\"and symbols\""]
    );
    assert_eq!(StringType::Word.get_examples(), vec!["word", "word_with_underscores"]);
}
