use brigadier::error::BrigadierError;
use brigadier::string_reader::StringReader;

#[test]
fn can_read() {
    let mut reader = StringReader::new("abc");
    assert_eq!(reader.can_read_char(), true);
    reader.skip(); // a
    assert_eq!(reader.can_read_char(), true);
    reader.skip(); // b
    assert_eq!(reader.can_read_char(), true);
    reader.skip(); // c
    assert_eq!(reader.can_read_char(), false);
}

#[test]
fn get_remaining_length() {
    let mut reader = StringReader::new("abc");
    assert_eq!(reader.get_remaining_length(), 3);
    reader.set_cursor(1);
    assert_eq!(reader.get_remaining_length(), 2);
    reader.set_cursor(2);
    assert_eq!(reader.get_remaining_length(), 1);
    reader.set_cursor(3);
    assert_eq!(reader.get_remaining_length(), 0);
}

#[test]
fn can_read_length() {
    let reader = StringReader::new("abc");
    assert_eq!(reader.can_read(1), true);
    assert_eq!(reader.can_read(2), true);
    assert_eq!(reader.can_read(3), true);
    assert_eq!(reader.can_read(4), false);
    assert_eq!(reader.can_read(5), false);
}

#[test]
fn peek() {
    let mut reader = StringReader::new("abc");
    assert_eq!(reader.peek_char().unwrap(), 'a');
    assert_eq!(reader.get_cursor(), 0);
    reader.set_cursor(2);
    assert_eq!(reader.peek_char().unwrap(), 'c');
    assert_eq!(reader.get_cursor(), 2);
}

#[test]
fn peek_length() {
    let mut reader = StringReader::new("abc");
    assert_eq!(reader.peek(0).unwrap(), 'a');
    assert_eq!(reader.peek(2).unwrap(), 'c');
    assert_eq!(reader.get_cursor(), 0);
    reader.set_cursor(1);
    assert_eq!(reader.peek(1).unwrap(), 'c');
    assert_eq!(reader.get_cursor(), 1);
}

#[test]
fn read() {
    let mut reader = StringReader::new("abc");
    assert_eq!(reader.read().unwrap(), 'a');
    assert_eq!(reader.read().unwrap(), 'b');
    assert_eq!(reader.read().unwrap(), 'c');
    assert_eq!(reader.get_cursor(), 3);
}

#[test]
fn skip() {
    let mut reader = StringReader::new("abc");
    reader.skip();
    assert_eq!(reader.get_cursor(), 1);
    assert_eq!(reader.peek(0).unwrap(), 'b');
    assert_eq!(reader.read().unwrap(), 'b');
}

#[test]
fn get_remaining() {
    let mut reader = StringReader::new("Hello!");
    assert_eq!(reader.get_remaining(), "Hello!");
    reader.set_cursor(3);
    assert_eq!(reader.get_remaining(), "lo!");
    reader.set_cursor(6);
    assert_eq!(reader.get_remaining(), "");
}

#[test]
fn get_read() {
    let mut reader = StringReader::new("Hello!");
    assert_eq!(reader.get_read(), "");
    reader.set_cursor(3);
    assert_eq!(reader.get_read(), "Hel");
    reader.set_cursor(6);
    assert_eq!(reader.get_read(), "Hello!");
}

#[test]
fn skip_whitespace_none() {
    let mut reader = StringReader::new("Hello!");
    reader.skip_whitespace();
    assert_eq!(reader.get_cursor(), 0);
}

#[test]
fn skip_whitespace_mixed() {
    let mut reader = StringReader::new(" \t \t\nHello!");
    reader.skip_whitespace();
    assert_eq!(reader.get_cursor(), 5);
}

#[test]
fn skip_whitespace_empty() {
    let mut reader = StringReader::new("");
    reader.skip_whitespace();
    assert_eq!(reader.get_cursor(), 0);
}

#[test]
fn read_unqoted_string() {
    let mut reader = StringReader::new("hello world");
    assert_eq!(reader.read_unqoted_string().unwrap(), "hello");
    assert_eq!(reader.get_cursor(), 5);
    assert_eq!(reader.get_read(), "hello");
    assert_eq!(reader.get_remaining(), " world");
}

#[test]
fn read_unqoted_string_empty() {
    let mut reader = StringReader::new("");
    assert_eq!(reader.read_unqoted_string().unwrap(), "");
    assert_eq!(reader.get_cursor(), 0);
    assert_eq!(reader.get_read(), "");
    assert_eq!(reader.get_remaining(), "");
}

#[test]
fn read_unqoted_string_empty_with_remaining() {
    let mut reader = StringReader::new(" hello world");
    assert_eq!(reader.read_unqoted_string().unwrap(), "");
    assert_eq!(reader.get_read(), "");
    assert_eq!(reader.get_remaining(), " hello world");
}

#[test]
fn read_quoted_string() {
    let mut reader = StringReader::new("\"hello world\"");
    assert_eq!(reader.read_quoted_string().unwrap(), "hello world");
    assert_eq!(reader.get_cursor(), 13);
    assert_eq!(reader.get_read(), "\"hello world\"");
    assert_eq!(reader.get_remaining(), "");
}

#[test]
fn read_single_quoted_string() {
    let mut reader = StringReader::new("'hello world'");
    assert_eq!(reader.read_quoted_string().unwrap(), "hello world");
    assert_eq!(reader.get_cursor(), 13);
    assert_eq!(reader.get_read(), "'hello world'");
    assert_eq!(reader.get_remaining(), "");
}

#[test]
fn read_mixed_quoted_string_double_inside() {
    let mut reader = StringReader::new("'hello \"world\"'");
    assert_eq!(reader.read_quoted_string().unwrap(), "hello \"world\"");
    assert_eq!(reader.get_cursor(), 15);
    assert_eq!(reader.get_read(), "'hello \"world\"'");
    assert_eq!(reader.get_remaining(), "");
}

#[test]
fn read_mixed_quoted_string_single_inside() {
    let mut reader = StringReader::new("\"hello 'world'\"");
    assert_eq!(reader.read_quoted_string().unwrap(), "hello 'world'");
    assert_eq!(reader.get_cursor(), 15);
    assert_eq!(reader.get_read(), "\"hello 'world'\"");
    assert_eq!(reader.get_remaining(), "");
}

#[test]
fn read_quoted_string_empty() {
    let mut reader = StringReader::new("");
    assert_eq!(reader.read_quoted_string().unwrap(), "");
    assert_eq!(reader.get_cursor(), 0);
    assert_eq!(reader.get_read(), "");
    assert_eq!(reader.get_remaining(), "");
}

#[test]
fn read_quoted_string_empty_quoted() {
    let mut reader = StringReader::new("\"\"");
    assert_eq!(reader.read_quoted_string().unwrap(), "");
    assert_eq!(reader.get_cursor(), 2);
    assert_eq!(reader.get_read(), "\"\"");
    assert_eq!(reader.get_remaining(), "");
}

#[test]
fn read_quoted_string_empty_quoted_with_remaining() {
    let mut reader = StringReader::new("\"\" hello world");
    assert_eq!(reader.read_quoted_string().unwrap(), "");
    assert_eq!(reader.get_cursor(), 2);
    assert_eq!(reader.get_read(), "\"\"");
    assert_eq!(reader.get_remaining(), " hello world");
}

#[test]
fn read_quoted_string_with_escaped_quote() {
    let mut reader = StringReader::new("\"hello \\\"world\\\"\"");
    assert_eq!(reader.read_quoted_string().unwrap(), "hello \"world\"");
    assert_eq!(reader.get_cursor(), 17);
    assert_eq!(reader.get_read(), "\"hello \\\"world\\\"\"");
    assert_eq!(reader.get_remaining(), "");
}

#[test]
fn read_quoted_string_with_scaped_escapes() {
    let mut reader = StringReader::new("\"\\\\o/\"");
    assert_eq!(reader.read_quoted_string().unwrap(), "\\o/");
    assert_eq!(reader.get_cursor(), 6);
    assert_eq!(reader.get_read(), "\"\\\\o/\"");
    assert_eq!(reader.get_remaining(), "");
}

#[test]
fn read_quoted_string_with_remaining() {
    let mut reader = StringReader::new("\"hello world\" foo bar");
    assert_eq!(reader.read_quoted_string().unwrap(), "hello world");
    assert_eq!(reader.get_cursor(), 13);
    assert_eq!(reader.get_read(), "\"hello world\"");
    assert_eq!(reader.get_remaining(), " foo bar");
}

#[test]
fn read_quoted_string_with_immediate_remaining() {
    let mut reader = StringReader::new("\"hello world\"foo bar");
    assert_eq!(reader.read_quoted_string().unwrap(), "hello world");
    assert_eq!(reader.get_cursor(), 13);
    assert_eq!(reader.get_read(), "\"hello world\"");
    assert_eq!(reader.get_remaining(), "foo bar");
}

#[test]
fn read_quoted_string_no_open() {
    let mut reader = StringReader::new("hello world\"");
    assert_eq!(
        reader.read_quoted_string(),
        Err(BrigadierError::ExpectedStartOfQuote)
    );
    assert_eq!(reader.get_cursor(), 0);
}

#[test]
fn read_quoted_string_no_close() {
    let mut reader = StringReader::new("\"hello world");
    assert_eq!(
        reader.read_quoted_string(),
        Err(BrigadierError::ExpectedEndOfQuote)
    );
    assert_eq!(reader.get_cursor(), 12);
}

#[test]
fn read_quoted_string_invalid_escape() {
    let mut reader = StringReader::new("\"hello\\nworld\"");
    assert_eq!(
        reader.read_quoted_string(),
        Err(BrigadierError::InvalidEscape('n'))
    );
    assert_eq!(reader.get_cursor(), 7);
}

#[test]
fn read_quoted_string_invalid_quote_escape() {
    let mut reader = StringReader::new("'hello\\\"\'world");
    assert_eq!(
        reader.read_quoted_string(),
        Err(BrigadierError::InvalidEscape('"'))
    );
    assert_eq!(reader.get_cursor(), 7);
}

#[test]
fn read_string_no_quotes() {
    let mut reader = StringReader::new("hello world");
    assert_eq!(reader.read_string().unwrap(), "hello");
    assert_eq!(reader.get_cursor(), 5);
    assert_eq!(reader.get_read(), "hello");
    assert_eq!(reader.get_remaining(), " world");
}

#[test]
fn read_string_single_quotes() {
    let mut reader = StringReader::new("'hello world'");
    assert_eq!(reader.read_string().unwrap(), "hello world");
    assert_eq!(reader.get_cursor(), 13);
    assert_eq!(reader.get_read(), "'hello world'");
    assert_eq!(reader.get_remaining(), "");
}

#[test]
fn read_string_double_quotes() {
    let mut reader = StringReader::new("\"hello world\"");
    assert_eq!(reader.read_string().unwrap(), "hello world");
    assert_eq!(reader.get_cursor(), 13);
    assert_eq!(reader.get_read(), "\"hello world\"");
    assert_eq!(reader.get_remaining(), "");
}

#[test]
fn read_int() {
    let mut reader = StringReader::new("1234567890");
    assert_eq!(reader.read_int().unwrap(), 1234567890);
    assert_eq!(reader.get_cursor(), 10);
    assert_eq!(reader.get_read(), "1234567890");
    assert_eq!(reader.get_remaining(), "");
}

#[test]
fn read_int_negative() {
    let mut reader = StringReader::new("-1234567890");
    assert_eq!(reader.read_int().unwrap(), -1234567890);
    assert_eq!(reader.get_cursor(), 11);
    assert_eq!(reader.get_read(), "-1234567890");
    assert_eq!(reader.get_remaining(), "");
}

#[test]
fn read_int_invalid() {
    let mut reader = StringReader::new("12.34");
    assert_eq!(reader.read_int(), Err(BrigadierError::InvalidInt));
    assert_eq!(reader.get_cursor(), 0);
}

#[test]
fn read_int_none() {
    let mut reader = StringReader::new("");
    assert_eq!(reader.read_int(), Err(BrigadierError::ExpectedInt));
    assert_eq!(reader.get_cursor(), 0);
}

#[test]
fn read_int_with_remaining() {
    let mut reader = StringReader::new("1234567890 foo bar");
    assert_eq!(reader.read_int().unwrap(), 1234567890);
    assert_eq!(reader.get_cursor(), 10);
    assert_eq!(reader.get_read(), "1234567890");
    assert_eq!(reader.get_remaining(), " foo bar");
}

#[test]
fn read_int_with_remaining_immediate() {
    let mut reader = StringReader::new("1234567890foo bar");
    assert_eq!(reader.read_int().unwrap(), 1234567890);
    assert_eq!(reader.get_cursor(), 10);
    assert_eq!(reader.get_read(), "1234567890");
    assert_eq!(reader.get_remaining(), "foo bar");
}

#[test]
fn read_long() {
    let mut reader = StringReader::new("1234567890");
    assert_eq!(reader.read_long().unwrap(), 1234567890i64);
    assert_eq!(reader.get_cursor(), 10);
    assert_eq!(reader.get_read(), "1234567890");
    assert_eq!(reader.get_remaining(), "");
}

#[test]
fn read_long_negative() {
    let mut reader = StringReader::new("-1234567890");
    assert_eq!(reader.read_long().unwrap(), -1234567890i64);
    assert_eq!(reader.get_cursor(), 11);
    assert_eq!(reader.get_read(), "-1234567890");
    assert_eq!(reader.get_remaining(), "");
}

#[test]
fn read_long_invalid() {
    let mut reader = StringReader::new("12.34");
    assert_eq!(reader.read_long(), Err(BrigadierError::InvalidLong));
    assert_eq!(reader.get_cursor(), 0);
}

#[test]
fn read_long_none() {
    let mut reader = StringReader::new("");
    assert_eq!(reader.read_long(), Err(BrigadierError::ExpectedLong));
    assert_eq!(reader.get_cursor(), 0);
}

#[test]
fn read_long_with_remaining() {
    let mut reader = StringReader::new("1234567890 foo bar");
    assert_eq!(reader.read_long().unwrap(), 1234567890i64);
    assert_eq!(reader.get_cursor(), 10);
    assert_eq!(reader.get_read(), "1234567890");
    assert_eq!(reader.get_remaining(), " foo bar");
}

#[test]
fn read_long_with_remaining_immediate() {
    let mut reader = StringReader::new("1234567890foo bar");
    assert_eq!(reader.read_long().unwrap(), 1234567890i64);
    assert_eq!(reader.get_cursor(), 10);
    assert_eq!(reader.get_read(), "1234567890");
    assert_eq!(reader.get_remaining(), "foo bar");
}

#[test]
fn expect_correct() {
    let mut reader = StringReader::new("abc");
    reader.expect('a').unwrap();
    assert_eq!(reader.get_cursor(), 1);
}

#[test]
fn expect_incorrect() {
    let mut reader = StringReader::new("bca");
    assert_eq!(reader.expect('a'), Err(BrigadierError::ExpectedSymbol('a')));
    assert_eq!(reader.get_cursor(), 0);
}

#[test]
fn expect_none() {
    let mut reader = StringReader::new("");
    assert_eq!(reader.expect('a'), Err(BrigadierError::ExpectedSymbol('a')));
    assert_eq!(reader.get_cursor(), 0);
}

#[test]
fn read_boolean_correct() {
    let mut reader = StringReader::new("true");
    assert_eq!(reader.read_boolean().unwrap(), true);
    assert_eq!(reader.get_cursor(), 4);
    assert_eq!(reader.get_read(), "true");
    assert_eq!(reader.get_remaining(), "");
}

#[test]
fn read_boolean_incorrect() {
    let mut reader = StringReader::new("tuesday");
    assert_eq!(reader.read_boolean(), Err(BrigadierError::InvalidBool));
    assert_eq!(reader.get_cursor(), 0);
}

#[test]
fn read_boolean_none() {
    let mut reader = StringReader::new("");
    assert_eq!(reader.read_boolean(), Err(BrigadierError::ExpectedBool));
    assert_eq!(reader.get_cursor(), 0);
}
