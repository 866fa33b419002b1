use crate::error::BrigadierError;
use crate::text::{alphanumeric_char, chars_of, is_ascii_digit, push_char, same_text, whitespace_char};
use vstd::prelude::*;

verus! {

pub const SYNTAX_ESCAPE: char = '\\';

pub const SYNTAX_DOUBLE_QUOTE: char = '"';

pub const SYNTAX_SINGLE_QUOTE: char = '\'';

/// Characters that a numeric token may hold.
pub open spec fn allowed_number(c: char) -> bool {
    is_ascii_digit(c) || c == '-' || c == '.'
}

/// Characters that an unquoted string may hold.
pub open spec fn allowed_unquoted(c: char) -> bool {
    is_ascii_digit(c) || ('a' <= c && c <= 'z') || ('A' <= c && c <= 'Z') || alphanumeric_char(c) || c == '_'
        || c == '-' || c == '.' || c == '+'
}

pub open spec fn quote_char(c: char) -> bool {
    c == SYNTAX_DOUBLE_QUOTE || c == SYNTAX_SINGLE_QUOTE
}

/// Where the run of number characters that starts at `i` stops.
pub open spec fn number_end(s: Seq<char>, i: int) -> int
    decreases s.len() - i,
{
    if 0 <= i < s.len() && allowed_number(s[i]) {
        number_end(s, i + 1)
    } else {
        i
    }
}

/// Where the run of unquoted-string characters that starts at `i` stops.
pub open spec fn unquoted_end(s: Seq<char>, i: int) -> int
    decreases s.len() - i,
{
    if 0 <= i < s.len() && allowed_unquoted(s[i]) {
        unquoted_end(s, i + 1)
    } else {
        i
    }
}

/// Where the run of whitespace that starts at `i` stops.
pub open spec fn whitespace_end(s: Seq<char>, i: int) -> int
    decreases s.len() - i,
{
    if 0 <= i < s.len() && whitespace_char(s[i]) {
        whitespace_end(s, i + 1)
    } else {
        i
    }
}

/// The value of a non-empty run of ASCII digits.
pub open spec fn digits_value(s: Seq<char>) -> int
    decreases s.len(),
{
    if s.len() == 0 {
        0
    } else {
        10 * digits_value(s.drop_last()) + (s.last() as int - '0' as int)
    }
}

pub open spec fn all_digits(s: Seq<char>) -> bool {
    s.len() > 0 && forall|i: int| 0 <= i < s.len() ==> is_ascii_digit(#[trigger] s[i])
}

/// The integer that a token denotes in decimal notation: an optional minus
/// sign followed by at least one ASCII digit.
pub open spec fn decimal_value(s: Seq<char>) -> Option<int> {
    if s.len() > 0 && s[0] == '-' {
        if all_digits(s.drop_first()) {
            Some(-digits_value(s.drop_first()))
        } else {
            None
        }
    } else if all_digits(s) {
        Some(digits_value(s))
    } else {
        None
    }
}

/// The decimal value of `s` when it lies in `[lo, hi]`.
pub open spec fn decimal_in(s: Seq<char>, lo: int, hi: int) -> Option<int> {
    match decimal_value(s) {
        Some(v) => if lo <= v && v <= hi {
            Some(v)
        } else {
            None
        },
        None => None,
    }
}

/// How a quoted string body ends.
pub enum QuotedScan {
    /// The terminator was found; `end` is the offset just after it.
    Closed { value: Seq<char>, end: int },
    /// An escape preceded a character that cannot be escaped, found at `at`.
    BadEscape { c: char, at: int },
    /// The input ended before the terminator.
    Unterminated,
}

/// Scans a quoted string body from offset `i`, with `acc` read so far.
pub open spec fn scan_quoted(s: Seq<char>, i: int, term: char, escaped: bool, acc: Seq<char>) -> QuotedScan
    decreases s.len() - i,
{
    if i < 0 || i >= s.len() {
        QuotedScan::Unterminated
    } else {
        let c = s[i];
        if escaped {
            if c == term || c == SYNTAX_ESCAPE {
                scan_quoted(s, i + 1, term, false, acc.push(c))
            } else {
                QuotedScan::BadEscape { c, at: i }
            }
        } else if c == SYNTAX_ESCAPE {
            scan_quoted(s, i + 1, term, true, acc)
        } else if c == term {
            QuotedScan::Closed { value: acc, end: i + 1 }
        } else {
            scan_quoted(s, i + 1, term, false, acc.push(c))
        }
    }
}

/// The result of reading a quoted body that starts at `i`, and the cursor afterwards.
pub open spec fn quoted_result(s: Seq<char>, i: int, term: char) -> (Result<Seq<char>, BrigadierError>, int) {
    match scan_quoted(s, i, term, false, Seq::empty()) {
        QuotedScan::Closed { value, end } => (Ok(value), end),
        QuotedScan::BadEscape { c, at } => (Err(BrigadierError::InvalidEscape(c)), at),
        QuotedScan::Unterminated => (Err(BrigadierError::ExpectedEndOfQuote), s.len() as int),
    }
}

/// The result of reading a string (quoted or not) at `p`, and the cursor afterwards.
pub open spec fn string_token(s: Seq<char>, p: int) -> (Result<Seq<char>, BrigadierError>, int) {
    if p >= s.len() {
        (Ok(Seq::empty()), p)
    } else if quote_char(s[p]) {
        quoted_result(s, p + 1, s[p])
    } else {
        (Ok(s.subrange(p, unquoted_end(s, p))), unquoted_end(s, p))
    }
}

pub open spec fn view_result(r: Result<String, BrigadierError>) -> Result<Seq<char>, BrigadierError> {
    match r {
        Ok(s) => Ok(s@),
        Err(e) => Err(e),
    }
}

pub open spec fn true_word() -> Seq<char> {
    seq!['t', 'r', 'u', 'e']
}

pub open spec fn false_word() -> Seq<char> {
    seq!['f', 'a', 'l', 's', 'e']
}

/// The result of reading a boolean at `p`, and the cursor afterwards.
pub open spec fn boolean_token(s: Seq<char>, p: int) -> (Result<bool, BrigadierError>, int) {
    let (tok, end) = string_token(s, p);
    match tok {
        Err(e) => (Err(e), end),
        Ok(v) => if v.len() == 0 {
            (Err(BrigadierError::ExpectedBool), end)
        } else if v == true_word() {
            (Ok(true), end)
        } else if v == false_word() {
            (Ok(false), end)
        } else {
            (Err(BrigadierError::InvalidBool), p)
        },
    }
}

pub proof fn lemma_number_end(s: Seq<char>, i: int)
    requires
        0 <= i <= s.len(),
    ensures
        i <= number_end(s, i) <= s.len(),
    decreases s.len() - i,
{
    if i < s.len() && allowed_number(s[i]) {
        lemma_number_end(s, i + 1);
    }
}

pub proof fn lemma_unquoted_end(s: Seq<char>, i: int)
    requires
        0 <= i <= s.len(),
    ensures
        i <= unquoted_end(s, i) <= s.len(),
    decreases s.len() - i,
{
    if i < s.len() && allowed_unquoted(s[i]) {
        lemma_unquoted_end(s, i + 1);
    }
}

pub proof fn lemma_scan_quoted(s: Seq<char>, i: int, term: char, escaped: bool, acc: Seq<char>)
    requires
        0 <= i,
    ensures
        match scan_quoted(s, i, term, escaped, acc) {
            QuotedScan::Closed { value, end } => i < end <= s.len(),
            QuotedScan::BadEscape { c, at } => i <= at < s.len(),
            QuotedScan::Unterminated => true,
        },
    decreases s.len() - i,
{
    if i < s.len() {
        let c = s[i];
        if escaped {
            if c == term || c == SYNTAX_ESCAPE {
                lemma_scan_quoted(s, i + 1, term, false, acc.push(c));
            }
        } else if c == SYNTAX_ESCAPE {
            lemma_scan_quoted(s, i + 1, term, true, acc);
        } else if c != term {
            lemma_scan_quoted(s, i + 1, term, false, acc.push(c));
        }
    }
}

/// Reading a string or a boolean never moves the cursor back.
pub proof fn lemma_token_ends(s: Seq<char>, p: int)
    requires
        0 <= p <= s.len(),
    ensures
        p <= string_token(s, p).1 <= s.len(),
        p <= boolean_token(s, p).1 <= s.len(),
{
    lemma_unquoted_end(s, p);
    if p < s.len() {
        lemma_scan_quoted(s, p + 1, s[p], false, Seq::empty());
    }
}

proof fn lemma_digits_value_nonneg(s: Seq<char>)
    requires
        forall|i: int| 0 <= i < s.len() ==> is_ascii_digit(#[trigger] s[i]),
    ensures
        digits_value(s) >= 0,
    decreases s.len(),
{
    if s.len() > 0 {
        lemma_digits_value_nonneg(s.drop_last());
    }
}

/// A longer run of digits is worth at least as much as its prefix.
proof fn lemma_digits_value_grows(s: Seq<char>, k: int)
    requires
        0 <= k <= s.len(),
        forall|i: int| 0 <= i < s.len() ==> is_ascii_digit(#[trigger] s[i]),
    ensures
        digits_value(s.subrange(0, k)) <= digits_value(s),
    decreases s.len(),
{
    if k < s.len() {
        let t = s.drop_last();
        assert(t.subrange(0, k) =~= s.subrange(0, k));
        lemma_digits_value_grows(t, k);
        lemma_digits_value_nonneg(t);
    } else {
        assert(s.subrange(0, k) =~= s);
    }
}

/// A cursor over a line of input, counted in characters.
#[derive(Debug)]
pub struct StringReader {
    string: String,
    chars: Vec<char>,
    cursor: usize,
}

impl StringReader {
    /// The characters of the input.
    pub closed spec fn text(&self) -> Seq<char> {
        self.chars@
    }

    /// The cursor: the offset of the next character to read.
    pub closed spec fn pos(&self) -> int {
        self.cursor as int
    }

    pub closed spec fn consistent(&self) -> bool {
        self.string@ == self.chars@
    }

    pub open spec fn wf(&self) -> bool {
        self.consistent() && 0 <= self.pos() <= self.text().len() <= usize::MAX
    }

    pub open spec fn moved(&self, other: &StringReader, pos: int) -> bool {
        self.wf() && self.text() == other.text() && self.pos() == pos
    }

    pub fn new(string: &str) -> (r: StringReader)
        ensures
            r.wf(),
            r.text() == string@,
            r.pos() == 0,
    {
        let chars = chars_of(string);
        let n = chars.len();
        assert(chars@.len() == n);
        StringReader { string: string.to_owned(), chars, cursor: 0 }
    }

    pub fn get_string(&self) -> (r: &str)
        requires
            self.wf(),
        ensures
            r@ == self.text(),
    {
        self.string.as_str()
    }

    pub fn set_cursor(&mut self, cursor: usize)
        requires
            old(self).wf(),
            cursor <= old(self).text().len(),
        ensures
            final(self).moved(old(self), cursor as int),
    {
        self.cursor = cursor;
    }

    pub fn get_remaining_length(&self) -> (r: usize)
        requires
            self.wf(),
        ensures
            r == self.text().len() - self.pos(),
    {
        self.chars.len() - self.cursor
    }

    pub fn get_total_length(&self) -> (r: usize)
        requires
            self.wf(),
        ensures
            r == self.text().len(),
    {
        self.chars.len()
    }

    pub fn get_cursor(&self) -> (r: usize)
        requires
            self.wf(),
        ensures
            r == self.pos(),
    {
        self.cursor
    }

    /// The part of the input before the cursor.
    pub fn get_read(&self) -> (r: &str)
        requires
            self.wf(),
        ensures
            r@ == self.text().subrange(0, self.pos()),
    {
        self.string.as_str().substring_char(0, self.cursor)
    }

    /// The part of the input from the cursor on.
    pub fn get_remaining(&self) -> (r: &str)
        requires
            self.wf(),
        ensures
            r@ == self.text().subrange(self.pos(), self.text().len() as int),
    {
        self.string.as_str().substring_char(self.cursor, self.chars.len())
    }

    pub fn can_read(&self, length: usize) -> (r: bool)
        requires
            self.wf(),
        ensures
            r == (self.pos() + length <= self.text().len()),
    {
        length <= self.chars.len() - self.cursor
    }

    pub fn can_read_char(&self) -> (r: bool)
        requires
            self.wf(),
        ensures
            r == (self.pos() < self.text().len()),
    {
        self.can_read(1)
    }

    /// The character `offset` places after the cursor, without moving.
    pub fn peek(&self, offset: usize) -> (r: Result<char, BrigadierError>)
        requires
            self.wf(),
        ensures
            self.pos() + offset < self.text().len() ==> r == Ok::<char, BrigadierError>(
                self.text()[self.pos() + offset],
            ),
            self.pos() + offset >= self.text().len() ==> r == Err::<char, BrigadierError>(
                BrigadierError::EOF,
            ),
    {
        if offset < self.chars.len() - self.cursor {
            Ok(self.chars[self.cursor + offset])
        } else {
            Err(BrigadierError::EOF)
        }
    }

    pub fn peek_char(&self) -> (r: Result<char, BrigadierError>)
        requires
            self.wf(),
        ensures
            self.pos() < self.text().len() ==> r == Ok::<char, BrigadierError>(
                self.text()[self.pos()],
            ),
            self.pos() >= self.text().len() ==> r == Err::<char, BrigadierError>(
                BrigadierError::EOF,
            ),
    {
        self.peek(0)
    }

    /// Reads the character at the cursor and moves past it.
    pub fn read(&mut self) -> (r: Result<char, BrigadierError>)
        requires
            old(self).wf(),
        ensures
            old(self).pos() < old(self).text().len() ==> r == Ok::<char, BrigadierError>(
                old(self).text()[old(self).pos()],
            ) && final(self).moved(old(self), old(self).pos() + 1),
            old(self).pos() >= old(self).text().len() ==> r == Err::<char, BrigadierError>(
                BrigadierError::EOF,
            ) && final(self).moved(old(self), old(self).pos()),
    {
        if self.cursor < self.chars.len() {
            let c = self.chars[self.cursor];
            self.cursor = self.cursor + 1;
            Ok(c)
        } else {
            Err(BrigadierError::EOF)
        }
    }

    /// Moves the cursor one character on.
    pub fn skip(&mut self)
        requires
            old(self).wf(),
            old(self).pos() < old(self).text().len(),
        ensures
            final(self).moved(old(self), old(self).pos() + 1),
    {
        let len = self.chars.len();
        assert(self.cursor < len);
        self.cursor = self.cursor + 1;
    }

    pub fn is_allowed_number(&self, c: char) -> (r: bool)
        ensures
            r == allowed_number(c),
    {
        ('0' <= c && c <= '9') || c == '-' || c == '.'
    }

    pub fn is_quoted_string_start(&self, c: char) -> (r: bool)
        ensures
            r == quote_char(c),
    {
        c == SYNTAX_DOUBLE_QUOTE || c == SYNTAX_SINGLE_QUOTE
    }

    pub fn is_allowed_in_unquoted_string(&self, c: char) -> (r: bool)
        ensures
            r == allowed_unquoted(c),
    {
        c.is_alphanumeric() || c == '_' || c == '-' || c == '.' || c == '+'
    }

    pub fn skip_whitespace(&mut self)
        requires
            old(self).wf(),
        ensures
            final(self).moved(old(self), whitespace_end(old(self).text(), old(self).pos())),
    {
        while self.cursor < self.chars.len() && self.chars[self.cursor].is_whitespace()
            invariant
                self.moved(old(self), self.pos()),
                old(self).pos() <= self.pos(),
                whitespace_end(self.text(), old(self).pos()) == whitespace_end(
                    self.text(),
                    self.pos(),
                ),
            decreases self.text().len() - self.pos(),
        {
            self.cursor = self.cursor + 1;
        }
    }

    /// Moves the cursor over the run of number characters and returns where it began.
    fn scan_number(&mut self) -> (start: usize)
        requires
            old(self).wf(),
        ensures
            start == old(self).pos(),
            final(self).moved(old(self), number_end(old(self).text(), old(self).pos())),
            old(self).pos() <= final(self).pos(),
    {
        proof {
            lemma_number_end(self.text(), self.pos());
        }
        let start = self.cursor;
        while self.cursor < self.chars.len() && self.is_allowed_number(self.chars[self.cursor])
            invariant
                self.moved(old(self), self.pos()),
                start == old(self).pos() <= self.pos(),
                number_end(self.text(), start as int) == number_end(self.text(), self.pos()),
            decreases self.text().len() - self.pos(),
        {
            self.cursor = self.cursor + 1;
        }
        start
    }

    /// The decimal value of `chars[start..end]` when it lies in `[lo, hi]`.
    fn parse_decimal(&self, start: usize, end: usize, lo: i64, hi: i64) -> (r: Option<i64>)
        requires
            self.wf(),
            start <= end <= self.text().len(),
            lo <= 0 <= hi,
        ensures
            r == match decimal_in(self.text().subrange(start as int, end as int), lo as int, hi as int) {
                Some(v) => Some(v as i64),
                None => None::<i64>,
            },
    {
        let ghost tok = self.text().subrange(start as int, end as int);
        let neg = start < end && self.chars[start] == '-';
        let ds = if neg {
            start + 1
        } else {
            start
        };
        let ghost digits = self.text().subrange(ds as int, end as int);
        assert(neg == (tok.len() > 0 && tok[0] == '-'));
        assert(neg ==> digits =~= tok.drop_first());
        assert(!neg ==> digits =~= tok);
        if ds == end {
            assert(!all_digits(digits));
            return None;
        }
        let limit: i128 = if neg {
            -(lo as i128)
        } else {
            hi as i128
        };
        let mut acc: i128 = 0;
        let mut i: usize = ds;
        while i < end
            invariant
                self.wf(),
                ds <= i <= end <= self.text().len(),
                digits == self.text().subrange(ds as int, end as int),
                tok == self.text().subrange(start as int, end as int),
                neg == (tok.len() > 0 && tok[0] == '-'),
                neg ==> digits == tok.drop_first(),
                !neg ==> digits == tok,
                limit == if neg {
                    -(lo as int)
                } else {
                    hi as int
                },
                0 <= limit <= 0x8000_0000_0000_0000,
                0 <= acc <= limit,
                acc == digits_value(self.text().subrange(ds as int, i as int)),
                forall|k: int| ds <= k < i ==> is_ascii_digit(#[trigger] self.text()[k]),
            decreases end - i,
        {
            let c = self.chars[i];
            if !('0' <= c && c <= '9') {
                assert(!is_ascii_digit(digits[i - ds]));
                assert(!all_digits(digits));
                return None;
            }
            let d: i128 = (c as u32 - '0' as u32) as i128;
            acc = acc * 10 + d;
            assert(self.text().subrange(ds as int, i + 1).drop_last() =~= self.text().subrange(
                ds as int,
                i as int,
            ));
            if acc > limit {
                proof {
                    let pre = self.text().subrange(ds as int, i + 1);
                    if all_digits(digits) {
                        assert(digits.subrange(0, i + 1 - ds) =~= pre);
                        lemma_digits_value_grows(digits, i + 1 - ds);
                        assert(digits_value(digits) > limit);
                    }
                    assert(decimal_in(tok, lo as int, hi as int) is None);
                }
                return None;
            }
            i = i + 1;
        }
        assert(self.text().subrange(ds as int, i as int) =~= digits);
        if neg {
            Some((-acc) as i64)
        } else {
            Some(acc as i64)
        }
    }

    /// Reads a 32-bit integer. An empty token fails `ExpectedInt` and leaves the
    /// cursor alone; a token that is no integer in range fails `InvalidInt` and
    /// puts the cursor back where the token began.
    pub fn read_int(&mut self) -> (r: Result<i32, BrigadierError>)
        requires
            old(self).wf(),
        ensures
            ({
                let s = old(self).text();
                let p = old(self).pos();
                let end = number_end(s, p);
                let tok = s.subrange(p, end);
                &&& tok.len() == 0 ==> r == Err::<i32, BrigadierError>(BrigadierError::ExpectedInt)
                    && final(self).moved(old(self), p)
                &&& tok.len() > 0 && decimal_in(tok, i32::MIN as int, i32::MAX as int) is None
                    ==> r == Err::<i32, BrigadierError>(BrigadierError::InvalidInt)
                    && final(self).moved(old(self), p)
                &&& decimal_in(tok, i32::MIN as int, i32::MAX as int) matches Some(v) ==> r
                    == Ok::<i32, BrigadierError>(v as i32) && final(self).moved(old(self), end)
            }),
    {
        let start = self.scan_number();
        if start == self.cursor {
            return Err(BrigadierError::ExpectedInt);
        }
        match self.parse_decimal(start, self.cursor, i32::MIN as i64, i32::MAX as i64) {
            Some(v) => Ok(v as i32),
            None => {
                self.cursor = start;
                Err(BrigadierError::InvalidInt)
            },
        }
    }

    /// Reads a 64-bit integer, with the same cursor rules as `read_int`.
    pub fn read_long(&mut self) -> (r: Result<i64, BrigadierError>)
        requires
            old(self).wf(),
        ensures
            ({
                let s = old(self).text();
                let p = old(self).pos();
                let end = number_end(s, p);
                let tok = s.subrange(p, end);
                &&& tok.len() == 0 ==> r == Err::<i64, BrigadierError>(BrigadierError::ExpectedLong)
                    && final(self).moved(old(self), p)
                &&& tok.len() > 0 && decimal_in(tok, i64::MIN as int, i64::MAX as int) is None
                    ==> r == Err::<i64, BrigadierError>(BrigadierError::InvalidLong)
                    && final(self).moved(old(self), p)
                &&& decimal_in(tok, i64::MIN as int, i64::MAX as int) matches Some(v) ==> r
                    == Ok::<i64, BrigadierError>(v as i64) && final(self).moved(old(self), end)
            }),
    {
        let start = self.scan_number();
        if start == self.cursor {
            return Err(BrigadierError::ExpectedLong);
        }
        match self.parse_decimal(start, self.cursor, i64::MIN, i64::MAX) {
            Some(v) => Ok(v),
            None => {
                self.cursor = start;
                Err(BrigadierError::InvalidLong)
            },
        }
    }

    /// Moves over a numeric token and hands it back, for number types
    /// that are converted outside this crate. The cursor ends after the token.
    pub fn read_number_token(&mut self) -> (r: String)
        requires
            old(self).wf(),
        ensures
            final(self).moved(old(self), number_end(old(self).text(), old(self).pos())),
            r@ == old(self).text().subrange(old(self).pos(), final(self).pos()),
    {
        let start = self.scan_number();
        self.string.as_str().substring_char(start, self.cursor).to_owned()
    }

    /// Reads the run of unquoted-string characters at the cursor; never fails.
    pub fn read_unqoted_string(&mut self) -> (r: Result<String, BrigadierError>)
        requires
            old(self).wf(),
        ensures
            final(self).moved(old(self), unquoted_end(old(self).text(), old(self).pos())),
            r matches Ok(v) && v@ == old(self).text().subrange(old(self).pos(), final(self).pos()),
    {
        proof {
            lemma_unquoted_end(self.text(), self.pos());
        }
        let start = self.cursor;
        while self.cursor < self.chars.len() && self.is_allowed_in_unquoted_string(
            self.chars[self.cursor],
        )
            invariant
                self.moved(old(self), self.pos()),
                start == old(self).pos() <= self.pos(),
                unquoted_end(self.text(), start as int) == unquoted_end(self.text(), self.pos()),
            decreases self.text().len() - self.pos(),
        {
            self.cursor = self.cursor + 1;
        }
        Ok(self.string.as_str().substring_char(start, self.cursor).to_owned())
    }

    /// Reads a quoted body up to `terminator`, the opening quote already read.
    /// A backslash may escape only the terminator or another backslash.
    pub fn read_string_until(&mut self, terminator: char) -> (r: Result<String, BrigadierError>)
        requires
            old(self).wf(),
        ensures
            view_result(r) == quoted_result(old(self).text(), old(self).pos(), terminator).0,
            final(self).moved(old(self), quoted_result(old(self).text(), old(self).pos(), terminator).1),
    {
        let mut result = String::new();
        let mut escaped = false;
        while self.cursor < self.chars.len()
            invariant
                self.moved(old(self), self.pos()),
                scan_quoted(self.text(), old(self).pos(), terminator, false, Seq::empty())
                    == scan_quoted(self.text(), self.pos(), terminator, escaped, result@),
            decreases self.text().len() - self.pos(),
        {
            let c = self.chars[self.cursor];
            self.cursor = self.cursor + 1;
            if escaped {
                if c == terminator || c == SYNTAX_ESCAPE {
                    push_char(&mut result, c);
                    escaped = false;
                } else {
                    self.cursor = self.cursor - 1;
                    return Err(BrigadierError::InvalidEscape(c));
                }
            } else if c == SYNTAX_ESCAPE {
                escaped = true;
            } else if c == terminator {
                return Ok(result);
            } else {
                push_char(&mut result, c);
            }
        }
        Err(BrigadierError::ExpectedEndOfQuote)
    }

    /// Reads a string that must open with a quote. At the end of input it
    /// reads the empty string.
    pub fn read_quoted_string(&mut self) -> (r: Result<String, BrigadierError>)
        requires
            old(self).wf(),
        ensures
            ({
                let s = old(self).text();
                let p = old(self).pos();
                if p >= s.len() {
                    view_result(r) == Ok::<Seq<char>, BrigadierError>(Seq::empty())
                        && final(self).moved(old(self), p)
                } else if !quote_char(s[p]) {
                    r == Err::<String, BrigadierError>(BrigadierError::ExpectedStartOfQuote)
                        && final(self).moved(old(self), p)
                } else {
                    view_result(r) == quoted_result(s, p + 1, s[p]).0 && final(self).moved(
                        old(self),
                        quoted_result(s, p + 1, s[p]).1,
                    )
                }
            }),
    {
        if self.cursor >= self.chars.len() {
            return Ok(String::new());
        }
        let next = self.chars[self.cursor];
        if !self.is_quoted_string_start(next) {
            return Err(BrigadierError::ExpectedStartOfQuote);
        }
        self.skip();
        self.read_string_until(next)
    }

    /// Reads a quoted string if a quote comes next, else an unquoted one.
    pub fn read_string(&mut self) -> (r: Result<String, BrigadierError>)
        requires
            old(self).wf(),
        ensures
            view_result(r) == string_token(old(self).text(), old(self).pos()).0,
            final(self).moved(old(self), string_token(old(self).text(), old(self).pos()).1),
    {
        if self.cursor >= self.chars.len() {
            return Ok(String::new());
        }
        let next = self.chars[self.cursor];
        if self.is_quoted_string_start(next) {
            self.skip();
            return self.read_string_until(next);
        }
        self.read_unqoted_string()
    }

    /// Reads `true` or `false`.
    pub fn read_boolean(&mut self) -> (r: Result<bool, BrigadierError>)
        requires
            old(self).wf(),
        ensures
            r == boolean_token(old(self).text(), old(self).pos()).0,
            final(self).moved(old(self), boolean_token(old(self).text(), old(self).pos()).1),
    {
        let start = self.cursor;
        let value = match self.read_string() {
            Ok(v) => v,
            Err(e) => {
                return Err(e);
            },
        };
        proof {
            reveal_strlit("true");
            reveal_strlit("false");
            assert("true"@ =~= true_word());
            assert("false"@ =~= false_word());
        }
        let n = value.as_str().unicode_len();
        if n == 0 {
            Err(BrigadierError::ExpectedBool)
        } else if same_text(value.as_str(), "true") {
            Ok(true)
        } else if same_text(value.as_str(), "false") {
            Ok(false)
        } else {
            self.cursor = start;
            Err(BrigadierError::InvalidBool)
        }
    }

    /// Moves past `c` if it is the next character.
    pub fn expect(&mut self, c: char) -> (r: Result<(), BrigadierError>)
        requires
            old(self).wf(),
        ensures
            ({
                let s = old(self).text();
                let p = old(self).pos();
                if p < s.len() && s[p] == c {
                    r == Ok::<(), BrigadierError>(()) && final(self).moved(old(self), p + 1)
                } else {
                    r == Err::<(), BrigadierError>(BrigadierError::ExpectedSymbol(c))
                        && final(self).moved(old(self), p)
                }
            }),
    {
        if self.cursor >= self.chars.len() {
            return Err(BrigadierError::ExpectedSymbol(c));
        }
        if self.chars[self.cursor] != c {
            return Err(BrigadierError::ExpectedSymbol(c));
        }
        self.skip();
        Ok(())
    }
}

} // verus!
