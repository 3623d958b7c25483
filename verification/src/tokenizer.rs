//! The tokenizer: from the characters of a JSON text to a sequence of tokens.
//!
//! The spec functions below describe the scan step by step, as the
//! tokenizer performs it: each returns its outcome and the position where
//! the scan stopped. Inside the scan, positions are indices of characters;
//! the errors that the tokenizer hands out give them as byte offsets into
//! the UTF-8 text.

use vstd::prelude::*;
use crate::error::{JsonError, SpecError, error_position, with_position};
use crate::number::{
    JsonNumber, SpecNumber, valid_literal, number_of_literal, out_of_range, debug_text,
};
use crate::text::{
    is_digit, push_char, push_text, string_of, chars_of, char_is_alphabetic, char_is_whitespace,
    is_alphabetic, is_whitespace, is_scalar, char_from_u32, byte_len, byte_offset, byte_len_fits,
    byte_offset_of, lemma_byte_offset_step, width_of, offset_from, text_between,
};

verus! {

/// A JSON token.
#[derive(Debug, PartialEq)]
pub enum Token {
    LeftBrace,
    RightBrace,
    LeftBracket,
    RightBracket,
    Comma,
    Colon,
    String(String),
    Number(JsonNumber),
    Boolean(bool),
    Null,
}

/// What a token holds, as plain values.
pub enum SpecToken {
    LeftBrace,
    RightBrace,
    LeftBracket,
    RightBracket,
    Comma,
    Colon,
    String(Seq<char>),
    Number(SpecNumber),
    Boolean(bool),
    Null,
}

impl View for Token {
    type V = SpecToken;

    open spec fn view(&self) -> SpecToken {
        match self {
            Token::LeftBrace => SpecToken::LeftBrace,
            Token::RightBrace => SpecToken::RightBrace,
            Token::LeftBracket => SpecToken::LeftBracket,
            Token::RightBracket => SpecToken::RightBracket,
            Token::Comma => SpecToken::Comma,
            Token::Colon => SpecToken::Colon,
            Token::String(s) => SpecToken::String(s@),
            Token::Number(n) => SpecToken::Number(n@),
            Token::Boolean(b) => SpecToken::Boolean(*b),
            Token::Null => SpecToken::Null,
        }
    }
}

/// The plain values of a sequence of tokens.
pub open spec fn tokens_view(v: Seq<Token>) -> Seq<SpecToken> {
    v.map_values(|t: Token| t@)
}

/// The plain values of a tokenizer's result.
pub open spec fn tokens_result_view(r: Result<Vec<Token>, JsonError>) -> Result<
    Seq<SpecToken>,
    SpecError,
> {
    match r {
        Ok(v) => Ok(tokens_view(v@)),
        Err(e) => Err(e@),
    }
}

/// The plain values of a single-token result.
pub open spec fn token_result_view(r: Result<Token, JsonError>) -> Result<SpecToken, SpecError> {
    match r {
        Ok(t) => Ok(t@),
        Err(e) => Err(e@),
    }
}

// ---------------------------------------------------------------------------
// Debug text of tokens.

/// A lower-case hexadecimal digit.
pub open spec fn hex_digit_lower(d: int) -> char {
    if d < 10 {
        (d + 48) as char
    } else {
        (d + 87) as char
    }
}

/// The lower-case hexadecimal numeral of `n < 256`, without leading zeros.
pub open spec fn small_hex(n: int) -> Seq<char> {
    if n < 16 {
        seq![hex_digit_lower(n)]
    } else {
        seq![hex_digit_lower(n / 16), hex_digit_lower(n % 16)]
    }
}

/// A control character that debug text shows as a `\u{..}` escape.
pub open spec fn is_escaped_control(c: char) -> bool {
    (c as int) < 0x20 || (0x7f <= (c as int) && (c as int) <= 0x9f)
}

/// How one character of a string reads in debug text.
pub open spec fn escape_debug_char(c: char) -> Seq<char> {
    if c == '"' {
        seq!['\\', '"']
    } else if c == '\\' {
        seq!['\\', '\\']
    } else if c == '\n' {
        seq!['\\', 'n']
    } else if c == '\r' {
        seq!['\\', 'r']
    } else if c == '\t' {
        seq!['\\', 't']
    } else if c == '\0' {
        seq!['\\', '0']
    } else if is_escaped_control(c) {
        seq!['\\', 'u', '{'] + small_hex(c as int) + seq!['}']
    } else {
        seq![c]
    }
}

/// How a string's characters read in debug text.
pub open spec fn escape_debug(s: Seq<char>) -> Seq<char>
    decreases s.len(),
{
    if s.len() == 0 {
        Seq::<char>::empty()
    } else {
        escape_debug(s.drop_last()) + escape_debug_char(s.last())
    }
}

/// The debug text of a token, as error messages quote it: `Comma`,
/// `String("a\"b")`, `Number(42.0)`, `Boolean(true)`, ...
pub open spec fn token_debug(t: SpecToken) -> Seq<char> {
    match t {
        SpecToken::LeftBrace => "LeftBrace"@,
        SpecToken::RightBrace => "RightBrace"@,
        SpecToken::LeftBracket => "LeftBracket"@,
        SpecToken::RightBracket => "RightBracket"@,
        SpecToken::Comma => "Comma"@,
        SpecToken::Colon => "Colon"@,
        SpecToken::String(s) => "String(\""@ + escape_debug(s) + "\")"@,
        SpecToken::Number(n) => "Number("@ + debug_text(n) + ")"@,
        SpecToken::Boolean(b) => if b {
            "Boolean(true)"@
        } else {
            "Boolean(false)"@
        },
        SpecToken::Null => "Null"@,
    }
}

/// Appends the debug text of one character to `s`.
fn push_escaped(s: &mut String, c: char)
    ensures
        final(s)@ == old(s)@ + escape_debug_char(c),
{
    let ghost s0 = s@;
    if c == '"' {
        push_char(s, '\\');
        push_char(s, '"');
    } else if c == '\\' {
        push_char(s, '\\');
        push_char(s, '\\');
    } else if c == '\n' {
        push_char(s, '\\');
        push_char(s, 'n');
    } else if c == '\r' {
        push_char(s, '\\');
        push_char(s, 'r');
    } else if c == '\t' {
        push_char(s, '\\');
        push_char(s, 't');
    } else if c == '\0' {
        push_char(s, '\\');
        push_char(s, '0');
    } else if (c as u32) < 0x20 || (0x7f <= (c as u32) && (c as u32) <= 0x9f) {
        let n = c as u32;
        push_char(s, '\\');
        push_char(s, 'u');
        push_char(s, '{');
        if n >= 16 {
            push_char(s, hex_digit(n / 16));
        }
        push_char(s, hex_digit(n % 16));
        push_char(s, '}');
    } else {
        push_char(s, c);
    }
    assert(s@ =~= s0 + escape_debug_char(c));
}

/// The lower-case hexadecimal digit of `d < 16`.
fn hex_digit(d: u32) -> (r: char)
    requires
        d < 16,
    ensures
        r == hex_digit_lower(d as int),
{
    if d < 10 {
        ((d as u8) + 48) as char
    } else {
        ((d as u8) + 87) as char
    }
}

impl Token {
    /// A copy of this token.
    pub fn duplicate(&self) -> (r: Token)
        ensures
            r@ == self@,
    {
        match self {
            Token::LeftBrace => Token::LeftBrace,
            Token::RightBrace => Token::RightBrace,
            Token::LeftBracket => Token::LeftBracket,
            Token::RightBracket => Token::RightBracket,
            Token::Comma => Token::Comma,
            Token::Colon => Token::Colon,
            Token::String(s) => Token::String(s.clone()),
            Token::Number(n) => Token::Number(n.duplicate()),
            Token::Boolean(b) => Token::Boolean(*b),
            Token::Null => Token::Null,
        }
    }

    /// The debug text of this token, as error messages quote it.
    pub fn debug_text(&self) -> (r: String)
        ensures
            r@ == token_debug(self@),
    {
        let mut out = String::new();
        match self {
            Token::LeftBrace => push_text(&mut out, "LeftBrace"),
            Token::RightBrace => push_text(&mut out, "RightBrace"),
            Token::LeftBracket => push_text(&mut out, "LeftBracket"),
            Token::RightBracket => push_text(&mut out, "RightBracket"),
            Token::Comma => push_text(&mut out, "Comma"),
            Token::Colon => push_text(&mut out, "Colon"),
            Token::String(s) => {
                push_text(&mut out, "String(\"");
                let v = chars_of(s.as_str());
                let ghost o0 = out@;
                for i in 0..v.len()
                    invariant
                        v@ == s@,
                        out@ == o0 + escape_debug(v@.take(i as int)),
                {
                    proof {
                        assert(v@.take(i + 1).drop_last() == v@.take(i as int));
                    }
                    push_escaped(&mut out, v[i]);
                }
                assert(v@.take(v.len() as int) == v@);
                push_text(&mut out, "\")");
            },
            Token::Number(n) => {
                push_text(&mut out, "Number(");
                let d = n.to_debug_text();
                push_text(&mut out, d.as_str());
                push_text(&mut out, ")");
            },
            Token::Boolean(b) => {
                if *b {
                    push_text(&mut out, "Boolean(true)");
                } else {
                    push_text(&mut out, "Boolean(false)");
                }
            },
            Token::Null => push_text(&mut out, "Null"),
        }
        out
    }
}

impl Clone for Token {
    fn clone(&self) -> (r: Token)
        ensures
            r@ == self@,
    {
        self.duplicate()
    }
}

// ---------------------------------------------------------------------------
// Character classes.

/// An ASCII hexadecimal digit.
pub open spec fn is_hex(c: char) -> bool {
    ('0' <= c && c <= '9') || ('a' <= c && c <= 'f') || ('A' <= c && c <= 'F')
}

/// The value of a hexadecimal digit.
pub open spec fn hex_value(c: char) -> int {
    if '0' <= c && c <= '9' {
        c as int - '0' as int
    } else if 'a' <= c && c <= 'f' {
        c as int - 'a' as int + 10
    } else {
        c as int - 'A' as int + 10
    }
}

/// The value of a sequence of hexadecimal digits, most significant first.
pub open spec fn hex_number(s: Seq<char>) -> int
    decreases s.len(),
{
    if s.len() == 0 {
        0
    } else {
        16 * hex_number(s.drop_last()) + hex_value(s.last())
    }
}

/// A character that may continue a number literal anywhere: a digit, `.`,
/// `-`, or an exponent mark `e` or `E`.
pub open spec fn is_number_char(c: char) -> bool {
    is_digit(c) || c == '.' || c == '-' || c == 'e' || c == 'E'
}

/// An exponent mark.
pub open spec fn is_exponent_mark(c: char) -> bool {
    c == 'e' || c == 'E'
}

/// `c` goes on with a number literal, where `after_mark` tells whether the
/// character before it is an exponent mark: a `+` does so only there.
pub open spec fn continues_number(c: char, after_mark: bool) -> bool {
    is_number_char(c) || (after_mark && c == '+')
}

/// The char that a one-character escape after a backslash stands for.
pub open spec fn simple_escape(c: char) -> Option<char> {
    if c == '"' {
        Some('"')
    } else if c == '\\' {
        Some('\\')
    } else if c == '/' {
        Some('/')
    } else if c == 'b' {
        Some('\u{8}')
    } else if c == 'f' {
        Some('\u{c}')
    } else if c == 'n' {
        Some('\n')
    } else if c == 'r' {
        Some('\r')
    } else if c == 't' {
        Some('\t')
    } else {
        None
    }
}

/// The token of a one-character punctuation mark.
pub open spec fn punctuation(c: char) -> Option<SpecToken> {
    if c == '{' {
        Some(SpecToken::LeftBrace)
    } else if c == '}' {
        Some(SpecToken::RightBrace)
    } else if c == '[' {
        Some(SpecToken::LeftBracket)
    } else if c == ']' {
        Some(SpecToken::RightBracket)
    } else if c == ':' {
        Some(SpecToken::Colon)
    } else if c == ',' {
        Some(SpecToken::Comma)
    } else {
        None
    }
}

// ---------------------------------------------------------------------------
// The scan, step by step.

/// Reads `remaining` hexadecimal digits from `pos`, after the digits `acc`
/// already read; a missing or wrong digit stops the reading (past the
/// character that was tried), with the digits read so far.
pub open spec fn scan_hex(input: Seq<char>, pos: int, acc: Seq<char>, remaining: nat) -> (Result<
    Seq<char>,
    Seq<char>,
>, int)
    decreases remaining,
{
    if remaining == 0 {
        (Ok(acc), pos)
    } else if pos < 0 || pos >= input.len() {
        (Err(acc), pos)
    } else if is_hex(input[pos]) {
        scan_hex(input, pos + 1, acc.push(input[pos]), (remaining - 1) as nat)
    } else {
        (Err(acc), pos + 1)
    }
}

/// A code point of the high half of a UTF-16 surrogate pair.
pub open spec fn is_high_surrogate(n: int) -> bool {
    0xD800 <= n <= 0xDBFF
}

/// A code point of the low half of a UTF-16 surrogate pair.
pub open spec fn is_low_surrogate(n: int) -> bool {
    0xDC00 <= n <= 0xDFFF
}

/// The code point that a UTF-16 surrogate pair stands for.
pub open spec fn surrogate_pair(high: int, low: int) -> int {
    0x10000 + (high - 0xD800) * 0x400 + (low - 0xDC00)
}

/// The `\u` escape whose four hexadecimal digits start at `pos` (its
/// backslash stands at `pos - 2`), and the char it names. A high surrogate
/// must be followed by a second `\u` escape of a low surrogate, and the two
/// name one char. The errors report where the escape at fault begins.
pub open spec fn unicode_escape(input: Seq<char>, pos: int) -> (Result<char, SpecError>, int) {
    let (r, p) = scan_hex(input, pos, Seq::<char>::empty(), 4);
    match r {
        Err(h) => (Err(SpecError::InvalidUnicode { sequence: h, position: pos - 2 }), p),
        Ok(h) => {
            let n = hex_number(h);
            if is_high_surrogate(n) {
                if 0 <= p && p + 1 < input.len() && input[p] == '\\' && input[p + 1] == 'u' {
                    let (r2, p2) = scan_hex(input, p + 2, Seq::<char>::empty(), 4);
                    match r2 {
                        Err(h2) => (Err(SpecError::InvalidUnicode { sequence: h2, position: p }), p2),
                        Ok(h2) => if is_low_surrogate(hex_number(h2)) {
                            (Ok(surrogate_pair(n, hex_number(h2)) as char), p2)
                        } else {
                            (Err(SpecError::InvalidUnicode { sequence: h, position: pos - 2 }), p2)
                        },
                    }
                } else {
                    (Err(SpecError::InvalidUnicode { sequence: h, position: pos - 2 }), p)
                }
            } else if is_scalar(n) {
                (Ok(n as char), p)
            } else {
                (Err(SpecError::InvalidUnicode { sequence: h, position: pos - 2 }), p)
            }
        },
    }
}

/// The body of a string literal from `pos` on; `acc` holds the characters
/// decoded so far. Where the input runs out, the error reports its end.
pub open spec fn scan_string(input: Seq<char>, pos: int, acc: Seq<char>) -> (Result<
    Seq<char>,
    SpecError,
>, int)
    decreases input.len() - pos,
{
    if pos < 0 || pos >= input.len() {
        (
            Err(
                SpecError::UnexpectedEndOfInput {
                    expected: "closing quote"@,
                    position: input.len() as int,
                },
            ),
            pos,
        )
    } else if input[pos] == '"' {
        (Ok(acc), pos + 1)
    } else if input[pos] == '\\' {
        if pos + 1 >= input.len() {
            (
                Err(
                    SpecError::UnexpectedEndOfInput {
                        expected: "escape character"@,
                        position: pos + 1,
                    },
                ),
                pos + 1,
            )
        } else {
            let e = input[pos + 1];
            if let Some(c) = simple_escape(e) {
                scan_string(input, pos + 2, acc.push(c))
            } else if e == 'u' {
                let (r, p) = unicode_escape(input, pos + 2);
                match r {
                    Ok(c) => {
                        proof {
                            lemma_unicode_escape(input, pos + 2);
                        }
                        scan_string(input, p, acc.push(c))
                    },
                    Err(err) => (Err(err), p),
                }
            } else {
                (Err(SpecError::InvalidEscape { ch: e, position: pos + 1 }), pos + 2)
            }
        }
    } else {
        scan_string(input, pos + 1, acc.push(input[pos]))
    }
}

/// Where the run of characters of a number literal that goes on at `pos`
/// ends; `after_mark` tells whether the character before `pos` is an
/// exponent mark.
pub open spec fn number_run(input: Seq<char>, pos: int, after_mark: bool) -> int
    decreases input.len() - pos,
{
    if 0 <= pos < input.len() && continues_number(input[pos], after_mark) {
        number_run(input, pos + 1, is_exponent_mark(input[pos]))
    } else {
        pos
    }
}

/// Where the run of characters of a number literal that starts at `pos`
/// ends.
pub open spec fn number_end(input: Seq<char>, pos: int) -> int {
    number_run(input, pos, false)
}

/// Where the run of alphabetic characters starting at `pos` ends.
pub open spec fn keyword_end(input: Seq<char>, pos: int) -> int
    decreases input.len() - pos,
{
    if 0 <= pos < input.len() && char_is_alphabetic(input[pos]) {
        keyword_end(input, pos + 1)
    } else {
        pos
    }
}

/// The number token whose literal starts at `start`.
pub open spec fn number_token(input: Seq<char>, start: int) -> (Result<SpecToken, SpecError>, int) {
    let end = number_end(input, start);
    let text = input.subrange(start, end);
    if valid_literal(text) && !out_of_range(number_of_literal(text)) {
        (Ok(SpecToken::Number(number_of_literal(text))), end)
    } else {
        (Err(SpecError::InvalidNumber { value: text, position: start }), end)
    }
}

/// The keyword token whose word starts at `start`.
pub open spec fn keyword_token(input: Seq<char>, start: int) -> (Result<SpecToken, SpecError>, int) {
    let end = keyword_end(input, start);
    let word = input.subrange(start, end);
    if word == "true"@ {
        (Ok(SpecToken::Boolean(true)), end)
    } else if word == "false"@ {
        (Ok(SpecToken::Boolean(false)), end)
    } else if word == "null"@ {
        (Ok(SpecToken::Null), end)
    } else {
        (
            Err(
                SpecError::UnexpectedToken {
                    expected: "true, false, or null"@,
                    found: word,
                    position: start,
                },
            ),
            end,
        )
    }
}

/// The string token whose body starts at `start`, just after the opening
/// quote.
pub open spec fn string_token(input: Seq<char>, start: int) -> (Result<SpecToken, SpecError>, int) {
    let (r, p) = scan_string(input, start, Seq::<char>::empty());
    match r {
        Ok(s) => (Ok(SpecToken::String(s)), p),
        Err(e) => (Err(e), p),
    }
}

/// The token that starts with the character at `pos`, which is neither
/// white space nor punctuation, and where it ends.
pub open spec fn next_token(input: Seq<char>, pos: int) -> (Result<SpecToken, SpecError>, int) {
    let c = input[pos];
    if c == '"' {
        string_token(input, pos + 1)
    } else if is_digit(c) || c == '-' {
        number_token(input, pos)
    } else if char_is_alphabetic(c) {
        keyword_token(input, pos)
    } else {
        (
            Err(
                SpecError::UnexpectedToken {
                    expected: "valid JSON token"@,
                    found: seq![c],
                    position: pos,
                },
            ),
            pos,
        )
    }
}

/// The tokens of `input` from `pos` on, after the tokens `acc`; whitespace
/// between tokens is skipped.
pub open spec fn tokenize_from(input: Seq<char>, pos: int, acc: Seq<SpecToken>) -> (Result<
    Seq<SpecToken>,
    SpecError,
>, int)
    decreases input.len() - pos,
{
    if pos < 0 || pos >= input.len() {
        (Ok(acc), pos)
    } else {
        let c = input[pos];
        if char_is_whitespace(c) {
            tokenize_from(input, pos + 1, acc)
        } else if let Some(t) = punctuation(c) {
            tokenize_from(input, pos + 1, acc.push(t))
        } else {
            let (r, p) = next_token(input, pos);
            match r {
                Ok(t) => {
                    proof {
                        lemma_token_advances(input, pos);
                    }
                    tokenize_from(input, p, acc.push(t))
                },
                Err(e) => (Err(e), p),
            }
        }
    }
}

/// Where each token from `pos` on starts and ends in `input` (indices of
/// characters; a string token spans its quotes), after the spans `acc`.
/// This follows the scan of `tokenize_from` and stops where it stops.
pub open spec fn token_spans_from(input: Seq<char>, pos: int, acc: Seq<(int, int)>) -> Seq<
    (int, int),
>
    decreases input.len() - pos,
{
    if pos < 0 || pos >= input.len() {
        acc
    } else {
        let c = input[pos];
        if char_is_whitespace(c) {
            token_spans_from(input, pos + 1, acc)
        } else if punctuation(c) is Some {
            token_spans_from(input, pos + 1, acc.push((pos, pos + 1)))
        } else {
            let (r, p) = next_token(input, pos);
            if r is Ok && pos < p <= input.len() {
                token_spans_from(input, p, acc.push((pos, p)))
            } else {
                acc
            }
        }
    }
}

/// Every token starts and ends within the input.
pub proof fn lemma_spans_within(input: Seq<char>, pos: int, acc: Seq<(int, int)>)
    requires
        forall|i: int| 0 <= i < acc.len() ==> 0 <= #[trigger] acc[i].0 <= acc[i].1 <= input.len(),
    ensures
        forall|i: int|
            0 <= i < token_spans_from(input, pos, acc).len() ==> 0 <= #[trigger] token_spans_from(
                input,
                pos,
                acc,
            )[i].0 <= token_spans_from(input, pos, acc)[i].1 <= input.len(),
    decreases input.len() - pos,
{
    if 0 <= pos < input.len() {
        let c = input[pos];
        if char_is_whitespace(c) {
            lemma_spans_within(input, pos + 1, acc);
            assert(token_spans_from(input, pos, acc) == token_spans_from(input, pos + 1, acc));
        } else if punctuation(c) is Some {
            let a = acc.push((pos, pos + 1));
            assert forall|i: int| 0 <= i < a.len() implies 0 <= #[trigger] a[i].0 <= a[i].1
                <= input.len() by {
                if i < acc.len() {
                    assert(a[i] == acc[i]);
                }
            }
            lemma_spans_within(input, pos + 1, a);
            assert(token_spans_from(input, pos, acc) == token_spans_from(input, pos + 1, a));
        } else {
            let (r, p) = next_token(input, pos);
            if r is Ok && pos < p <= input.len() {
                let a = acc.push((pos, p));
                assert forall|i: int| 0 <= i < a.len() implies 0 <= #[trigger] a[i].0 <= a[i].1
                    <= input.len() by {
                    if i < acc.len() {
                        assert(a[i] == acc[i]);
                    }
                }
                lemma_spans_within(input, p, a);
                assert(token_spans_from(input, pos, acc) == token_spans_from(input, p, a));
            } else {
                assert(token_spans_from(input, pos, acc) == acc);
            }
        }
    }
}

/// Where each token of a whole input starts and ends.
pub open spec fn spec_token_spans(input: Seq<char>) -> Seq<(int, int)> {
    token_spans_from(input, 0, Seq::<(int, int)>::empty())
}

/// The error with its position, an index of a character of `input`, given
/// as the byte offset of that character in the UTF-8 text of `input`.
pub open spec fn error_in_bytes(e: SpecError, input: Seq<char>) -> SpecError {
    with_position(e, byte_offset(input, error_position(e)) as int)
}

/// The outcome with the position of an error given as a byte offset.
pub open spec fn result_in_bytes<T>(r: Result<T, SpecError>, input: Seq<char>) -> Result<
    T,
    SpecError,
> {
    match r {
        Ok(x) => Ok(x),
        Err(e) => Err(error_in_bytes(e, input)),
    }
}

/// The tokens of a whole input.
pub open spec fn spec_tokenize(input: Seq<char>) -> Result<Seq<SpecToken>, SpecError> {
    tokenize_from(input, 0, Seq::<SpecToken>::empty()).0
}

// ---------------------------------------------------------------------------
// How far each step moves.

pub proof fn lemma_scan_hex(input: Seq<char>, pos: int, acc: Seq<char>, remaining: nat)
    requires
        0 <= pos <= input.len(),
    ensures
        ({
            let (r, p) = scan_hex(input, pos, acc, remaining);
            &&& pos <= p
            &&& p <= input.len() || (remaining == 0 && p == pos)
            &&& r is Ok ==> p == pos + remaining
            &&& r matches Ok(h) ==> h.len() == acc.len() + remaining
            &&& r matches Ok(h) ==> h.subrange(0, acc.len() as int) == acc
        }),
    decreases remaining,
{
    if remaining > 0 && pos < input.len() && is_hex(input[pos]) {
        lemma_scan_hex(input, pos + 1, acc.push(input[pos]), (remaining - 1) as nat);
        let (r, p) = scan_hex(input, pos, acc, remaining);
        if let Ok(h) = r {
            assert(h.subrange(0, acc.len() + 1 as int).subrange(0, acc.len() as int) == h.subrange(
                0,
                acc.len() as int,
            ));
        }
    } else if remaining == 0 {
        assert(acc.subrange(0, acc.len() as int) == acc);
    }
}

/// A `\u` escape that is read moves past its four digits; an error reports
/// a position within the input.
pub proof fn lemma_unicode_escape(input: Seq<char>, pos: int)
    requires
        2 <= pos <= input.len(),
    ensures
        ({
            let (r, p) = unicode_escape(input, pos);
            &&& pos <= p <= input.len()
            &&& r is Ok ==> pos + 4 <= p
            &&& r matches Err(e) ==> 0 <= error_position(e) <= input.len()
        }),
{
    lemma_scan_hex(input, pos, Seq::<char>::empty(), 4);
    let (r, p) = scan_hex(input, pos, Seq::<char>::empty(), 4);
    if r is Ok && p + 1 < input.len() {
        lemma_scan_hex(input, p + 2, Seq::<char>::empty(), 4);
    }
}

pub proof fn lemma_scan_string(input: Seq<char>, pos: int, acc: Seq<char>)
    requires
        0 <= pos <= input.len(),
    ensures
        ({
            let (r, p) = scan_string(input, pos, acc);
            &&& pos <= p
            &&& r is Ok ==> pos < p <= input.len()
            &&& r matches Err(e) ==> 0 <= error_position(e) <= input.len()
        }),
    decreases input.len() - pos,
{
    if pos < input.len() {
        if input[pos] == '"' {
        } else if input[pos] == '\\' {
            if pos + 1 < input.len() {
                let e = input[pos + 1];
                if let Some(c) = simple_escape(e) {
                    lemma_scan_string(input, pos + 2, acc.push(c));
                } else if e == 'u' {
                    lemma_unicode_escape(input, pos + 2);
                    let (r, p) = unicode_escape(input, pos + 2);
                    if let Ok(c) = r {
                        lemma_scan_string(input, p, acc.push(c));
                    }
                }
            }
        } else {
            lemma_scan_string(input, pos + 1, acc.push(input[pos]));
        }
    }
}

pub proof fn lemma_number_run(input: Seq<char>, pos: int, after_mark: bool)
    requires
        0 <= pos <= input.len(),
    ensures
        pos <= number_run(input, pos, after_mark) <= input.len(),
        pos < input.len() && is_number_char(input[pos]) ==> pos < number_run(
            input,
            pos,
            after_mark,
        ),
    decreases input.len() - pos,
{
    if pos < input.len() && continues_number(input[pos], after_mark) {
        lemma_number_run(input, pos + 1, is_exponent_mark(input[pos]));
    }
}

pub proof fn lemma_number_end(input: Seq<char>, pos: int)
    requires
        0 <= pos <= input.len(),
    ensures
        pos <= number_end(input, pos) <= input.len(),
        pos < input.len() && is_number_char(input[pos]) ==> pos < number_end(input, pos),
{
    lemma_number_run(input, pos, false);
}

pub proof fn lemma_keyword_end(input: Seq<char>, pos: int)
    requires
        0 <= pos <= input.len(),
    ensures
        pos <= keyword_end(input, pos) <= input.len(),
        forall|m: int| pos <= m < keyword_end(input, pos) ==> char_is_alphabetic(#[trigger] input[m]),
        keyword_end(input, pos) == input.len() || !char_is_alphabetic(
            input[keyword_end(input, pos)],
        ),
    decreases input.len() - pos,
{
    if pos < input.len() && char_is_alphabetic(input[pos]) {
        lemma_keyword_end(input, pos + 1);
    }
}

/// A token that is read successfully ends after the character at `pos` and
/// within the input.
pub proof fn lemma_token_advances(input: Seq<char>, pos: int)
    requires
        0 <= pos < input.len(),
    ensures
        input[pos] == '"' ==> (string_token(input, pos + 1).0 is Ok ==> pos < string_token(
            input,
            pos + 1,
        ).1 <= input.len()),
        (is_digit(input[pos]) || input[pos] == '-') ==> pos < number_token(input, pos).1
            <= input.len(),
        char_is_alphabetic(input[pos]) ==> pos < keyword_token(input, pos).1 <= input.len(),
{
    lemma_scan_string(input, pos + 1, Seq::<char>::empty());
    lemma_number_end(input, pos);
    lemma_keyword_end(input, pos);
    if is_digit(input[pos]) || input[pos] == '-' {
        lemma_number_end(input, pos + 1);
    }
    if char_is_alphabetic(input[pos]) {
        lemma_keyword_end(input, pos + 1);
    }
}

/// What holds of every step's outcome from `pos`: an error reports a
/// position within the input.
#[verifier::rlimit(40)]
pub proof fn lemma_tokenize_from(input: Seq<char>, pos: int, acc: Seq<SpecToken>)
    requires
        0 <= pos <= input.len(),
    ensures
        tokenize_from(input, pos, acc).0 matches Err(e) ==> 0 <= error_position(e) <= input.len(),
        tokenize_from(input, pos, acc).0 matches Ok(t) ==> t.len() <= acc.len() + input.len() - pos,
    decreases input.len() - pos,
{
    if pos < input.len() {
        let c = input[pos];
        if char_is_whitespace(c) {
            lemma_tokenize_from(input, pos + 1, acc);
        } else if let Some(t) = punctuation(c) {
            lemma_tokenize_from(input, pos + 1, acc.push(t));
        } else {
            lemma_token_advances(input, pos);
            lemma_scan_string(input, pos + 1, Seq::<char>::empty());
            let (r, p) = next_token(input, pos);
            if let Ok(t) = r {
                lemma_tokenize_from(input, p, acc.push(t));
            }
        }
    }
}

/// Law: when tokenizing fails, the error reports a position within the
/// input (an index of a character, or the length of the input where it
/// ran out); when it succeeds, there are no more tokens than characters.
pub proof fn law_tokenize_error_within_input(input: Seq<char>)
    ensures
        spec_tokenize(input) matches Err(e) ==> 0 <= error_position(e) <= input.len(),
        spec_tokenize(input) matches Ok(t) ==> t.len() <= input.len(),
{
    lemma_tokenize_from(input, 0, Seq::<SpecToken>::empty());
}

// ---------------------------------------------------------------------------
// Laws of whole inputs.

proof fn lemma_plain_string(input: Seq<char>, s: Seq<char>, i: int)
    requires
        input == seq!['"'] + s + seq!['"'],
        0 <= i <= s.len(),
        forall|m: int| 0 <= m < s.len() ==> #[trigger] s[m] != '"' && s[m] != '\\',
    ensures
        scan_string(input, 1 + i, s.take(i)) == (Ok::<Seq<char>, SpecError>(s), input.len() as int),
    decreases s.len() - i,
{
    if i == s.len() {
        assert(input[1 + i] == '"');
        assert(s.take(i) =~= s);
    } else {
        assert(input[1 + i] == s[i]);
        assert(s.take(i).push(s[i]) =~= s.take(i + 1));
        lemma_plain_string(input, s, i + 1);
    }
}

/// Law: text without quotes or backslashes, between two quotes, is one
/// string token holding that text.
pub proof fn law_plain_string_token(s: Seq<char>)
    requires
        forall|m: int| 0 <= m < s.len() ==> #[trigger] s[m] != '"' && s[m] != '\\',
    ensures
        spec_tokenize(seq!['"'] + s + seq!['"']) == Ok::<Seq<SpecToken>, SpecError>(
            seq![SpecToken::String(s)],
        ),
{
    let input = seq!['"'] + s + seq!['"'];
    lemma_plain_string(input, s, 0);
    assert(s.take(0) =~= Seq::<char>::empty());
    assert(input[0] == '"');
    assert(!char_is_whitespace(input[0]));
    assert(punctuation(input[0]) is None);
    assert(string_token(input, 1) == (
        Ok::<SpecToken, SpecError>(SpecToken::String(s)),
        input.len() as int,
    ));
    let acc = Seq::<SpecToken>::empty().push(SpecToken::String(s));
    assert(acc =~= seq![SpecToken::String(s)]);
    assert(tokenize_from(input, input.len() as int, acc).0 == Ok::<Seq<SpecToken>, SpecError>(acc));
}

/// A character as it is written in the body of a string literal: a
/// backslash or a quote with a backslash before it, any other as itself.
pub open spec fn escape_char(c: char) -> Seq<char> {
    if c == '\\' || c == '"' {
        seq!['\\', c]
    } else {
        seq![c]
    }
}

/// A text as it is written in the body of a string literal.
pub open spec fn escape_text(s: Seq<char>) -> Seq<char>
    decreases s.len(),
{
    if s.len() == 0 {
        Seq::<char>::empty()
    } else {
        escape_char(s[0]) + escape_text(s.drop_first())
    }
}

proof fn lemma_escaped_scan(pre: Seq<char>, s: Seq<char>, acc: Seq<char>)
    ensures
        scan_string(pre + escape_text(s) + seq!['"'], pre.len() as int, acc) == (Ok::<
            Seq<char>,
            SpecError,
        >(acc + s), pre.len() + escape_text(s).len() + 1int),
    decreases s.len(),
{
    let input = pre + escape_text(s) + seq!['"'];
    if s.len() == 0 {
        assert(escape_text(s) =~= Seq::<char>::empty());
        assert(input[pre.len() as int] == '"');
        assert(acc + s =~= acc);
    } else {
        let c = s[0];
        let rest = s.drop_first();
        let pre2 = pre + escape_char(c);
        assert(input =~= pre2 + escape_text(rest) + seq!['"']);
        lemma_escaped_scan(pre2, rest, acc.push(c));
        assert(acc.push(c) + rest =~= acc + s);
        if c == '\\' || c == '"' {
            assert(input[pre.len() as int] == '\\');
            assert(input[pre.len() as int + 1] == c);
        } else {
            assert(input[pre.len() as int] == c);
        }
    }
}

/// Law: the body of a string literal written from any text (a backslash
/// before each backslash and quote), then the closing quote, reads back as
/// that text, and the scan ends after the quote.
pub proof fn law_escaped_string_token(s: Seq<char>)
    ensures
        string_token(escape_text(s) + seq!['"'], 0) == (Ok::<SpecToken, SpecError>(
            SpecToken::String(s),
        ), escape_text(s).len() + 1int),
{
    lemma_escaped_scan(Seq::<char>::empty(), s, Seq::<char>::empty());
    assert(Seq::<char>::empty() + escape_text(s) =~= escape_text(s));
    assert(Seq::<char>::empty() + s =~= s);
}

/// The worth of an ASCII hexadecimal digit: `0`-`9` are 0 to 9, `a`-`f`
/// and `A`-`F` are 10 to 15.
pub open spec fn digit_worth(c: char) -> int {
    if '0' <= c && c <= '9' {
        c as int - 48
    } else if 'a' <= c && c <= 'f' {
        c as int - 87
    } else {
        c as int - 55
    }
}

/// Four ASCII hexadecimal digits (any of `0`-`9`, `a`-`f`, `A`-`F`).
pub open spec fn hex_quad(h: Seq<char>) -> bool {
    &&& h.len() == 4
    &&& forall|i: int|
        0 <= i < 4 ==> ('0' <= #[trigger] h[i] && h[i] <= '9') || ('a' <= h[i] && h[i] <= 'f')
            || ('A' <= h[i] && h[i] <= 'F')
}

/// The number that four hexadecimal digits write, most significant first.
pub open spec fn quad_worth(h: Seq<char>) -> int {
    4096 * digit_worth(h[0]) + 256 * digit_worth(h[1]) + 16 * digit_worth(h[2]) + digit_worth(h[3])
}

/// Reading four hexadecimal digits that stand at `pos`.
proof fn lemma_read_quad(input: Seq<char>, pos: int, h: Seq<char>)
    requires
        hex_quad(h),
        0 <= pos,
        pos + 4 <= input.len(),
        input.subrange(pos, pos + 4) == h,
    ensures
        scan_hex(input, pos, Seq::<char>::empty(), 4) == (Ok::<Seq<char>, Seq<char>>(h), pos + 4),
        hex_number(h) == quad_worth(h),
        0 <= quad_worth(h) <= 0xFFFF,
{
    let (a, b, c, d) = (h[0], h[1], h[2], h[3]);
    assert(h =~= seq![a, b, c, d]);
    assert(input[pos] == h[0]);
    assert(input[pos + 1] == h[1]);
    assert(input[pos + 2] == h[2]);
    assert(input[pos + 3] == h[3]);
    let e = Seq::<char>::empty();
    assert(is_hex(a) && is_hex(b) && is_hex(c) && is_hex(d));
    assert(scan_hex(input, pos + 4, seq![a, b, c, d], 0) == (Ok::<Seq<char>, Seq<char>>(h), pos + 4));
    assert(seq![a, b, c].push(d) =~= seq![a, b, c, d]);
    assert(scan_hex(input, pos + 3, seq![a, b, c], 1) == scan_hex(input, pos + 4, seq![a, b, c, d], 0));
    assert(seq![a, b].push(c) =~= seq![a, b, c]);
    assert(scan_hex(input, pos + 2, seq![a, b], 2) == scan_hex(input, pos + 3, seq![a, b, c], 1));
    assert(seq![a].push(b) =~= seq![a, b]);
    assert(scan_hex(input, pos + 1, seq![a], 3) == scan_hex(input, pos + 2, seq![a, b], 2));
    assert(e.push(a) =~= seq![a]);
    assert(scan_hex(input, pos, e, 4) == scan_hex(input, pos + 1, seq![a], 3));
    assert(seq![a, b, c, d].drop_last() =~= seq![a, b, c]);
    assert(seq![a, b, c].drop_last() =~= seq![a, b]);
    assert(seq![a, b].drop_last() =~= seq![a]);
    assert(seq![a].drop_last() =~= e);
    assert(hex_number(e) == 0);
    assert(hex_number(seq![a]) == hex_value(a));
    assert(hex_number(seq![a, b]) == 16 * hex_value(a) + hex_value(b));
    assert(hex_number(seq![a, b, c]) == 256 * hex_value(a) + 16 * hex_value(b) + hex_value(c));
    assert(hex_number(h) == 4096 * hex_value(a) + 256 * hex_value(b) + 16 * hex_value(c)
        + hex_value(d));
}

/// Law: every `\u` escape of four ASCII hexadecimal digits (any of
/// `0`-`9`, `a`-`f`, `A`-`F`) that names a code point outside the surrogate
/// range (below `0xD800`, or from `0xE000` to `0xFFFF`) reads as the char
/// of that code point: the string literal `"\uXXXX"` tokenizes to exactly
/// one string token holding that one char.
pub proof fn law_unicode_escape_decodes(h: Seq<char>)
    requires
        hex_quad(h),
        quad_worth(h) < 0xD800 || 0xE000 <= quad_worth(h),
    ensures
        spec_tokenize(seq!['"', '\\', 'u'] + h + seq!['"']) == Ok::<Seq<SpecToken>, SpecError>(
            seq![SpecToken::String(seq![quad_worth(h) as char])],
        ),
{
    let n = quad_worth(h);
    let input = seq!['"', '\\', 'u'] + h + seq!['"'];
    assert(input.subrange(3, 7) =~= h);
    lemma_read_quad(input, 3, h);
    let e = Seq::<char>::empty();
    assert(!is_high_surrogate(n) && is_scalar(n));
    assert(unicode_escape(input, 3) == (Ok::<char, SpecError>(n as char), 7int));
    assert(input[1] == '\\' && input[2] == 'u' && input[7] == '"' && input[0] == '"');
    assert(input.len() == 8);
    assert(simple_escape('u') is None);
    lemma_unicode_escape(input, 3);
    assert(scan_string(input, 7, seq![n as char]) == (
        Ok::<Seq<char>, SpecError>(seq![n as char]),
        8int,
    ));
    assert(e.push(n as char) =~= seq![n as char]);
    assert(scan_string(input, 1, e) == scan_string(input, 7, seq![n as char]));
    assert(next_token(input, 0) == string_token(input, 1));
    let acc = Seq::<SpecToken>::empty().push(SpecToken::String(seq![n as char]));
    assert(acc =~= seq![SpecToken::String(seq![n as char])]);
    assert(tokenize_from(input, 8, acc) == (Ok::<Seq<SpecToken>, SpecError>(acc), 8int));
}

/// Law: a `\u` escape of a high surrogate (`D800`-`DBFF`) followed by a
/// `\u` escape of a low surrogate (`DC00`-`DFFF`) reads as the one char
/// that the UTF-16 pair stands for, `0x10000 + (high - 0xD800) * 0x400 +
/// (low - 0xDC00)`; a high surrogate followed by anything else, or a low
/// surrogate alone, is an `InvalidUnicode` error at the backslash that
/// starts it.
pub proof fn law_surrogates(h1: Seq<char>, h2: Seq<char>)
    requires
        hex_quad(h1),
        hex_quad(h2),
    ensures
        0xD800 <= quad_worth(h1) <= 0xDBFF && 0xDC00 <= quad_worth(h2) <= 0xDFFF
            ==> spec_tokenize(seq!['"', '\\', 'u'] + h1 + seq!['\\', 'u'] + h2 + seq!['"'])
            == Ok::<Seq<SpecToken>, SpecError>(
            seq![
                SpecToken::String(
                    seq![(0x10000 + (quad_worth(h1) - 0xD800) * 0x400 + (quad_worth(h2) - 0xDC00)) as char],
                ),
            ],
        ),
        0xD800 <= quad_worth(h1) <= 0xDFFF ==> spec_tokenize(seq!['"', '\\', 'u'] + h1 + seq!['"'])
            == Err::<Seq<SpecToken>, SpecError>(
            SpecError::InvalidUnicode { sequence: h1, position: 1 },
        ),
{
    let n1 = quad_worth(h1);
    let n2 = quad_worth(h2);
    let e = Seq::<char>::empty();
    // A pair.
    let input = seq!['"', '\\', 'u'] + h1 + seq!['\\', 'u'] + h2 + seq!['"'];
    assert(input.subrange(3, 7) =~= h1);
    assert(input.subrange(9, 13) =~= h2);
    lemma_read_quad(input, 3, h1);
    lemma_read_quad(input, 9, h2);
    assert(input[0] == '"' && input[1] == '\\' && input[2] == 'u' && input[7] == '\\' && input[8]
        == 'u' && input[13] == '"');
    assert(input.len() == 14);
    if 0xD800 <= n1 <= 0xDBFF && 0xDC00 <= n2 <= 0xDFFF {
        let cp = 0x10000 + (n1 - 0xD800) * 0x400 + (n2 - 0xDC00);
        assert(unicode_escape(input, 3) == (Ok::<char, SpecError>(cp as char), 13int));
        assert(simple_escape('u') is None);
        lemma_unicode_escape(input, 3);
        assert(scan_string(input, 13, seq![cp as char]) == (
            Ok::<Seq<char>, SpecError>(seq![cp as char]),
            14int,
        ));
        assert(e.push(cp as char) =~= seq![cp as char]);
        assert(scan_string(input, 1, e) == scan_string(input, 13, seq![cp as char]));
        assert(next_token(input, 0) == string_token(input, 1));
        let acc = Seq::<SpecToken>::empty().push(SpecToken::String(seq![cp as char]));
        assert(acc =~= seq![SpecToken::String(seq![cp as char])]);
        assert(tokenize_from(input, 14, acc) == (Ok::<Seq<SpecToken>, SpecError>(acc), 14int));
    }
    // A surrogate alone.
    let single = seq!['"', '\\', 'u'] + h1 + seq!['"'];
    assert(single.subrange(3, 7) =~= h1);
    lemma_read_quad(single, 3, h1);
    assert(single[0] == '"' && single[1] == '\\' && single[2] == 'u' && single[7] == '"');
    assert(single.len() == 8);
    if 0xD800 <= n1 <= 0xDFFF {
        assert(!is_scalar(n1));
        assert(unicode_escape(single, 3).0 == Err::<char, SpecError>(
            SpecError::InvalidUnicode { sequence: h1, position: 1 },
        ));
        assert(simple_escape('u') is None);
        assert(scan_string(single, 1, e).0 == Err::<Seq<char>, SpecError>(
            SpecError::InvalidUnicode { sequence: h1, position: 1 },
        ));
        assert(next_token(single, 0) == string_token(single, 1));
    }
}

/// Law: a backslash and one of `"`, `\`, `/`, `b`, `f`, `n`, `r`, `t` in a
/// string literal read as quote, backslash, slash, backspace, form feed,
/// line feed, carriage return and tab; a backslash and any other character
/// but `u` is an `InvalidEscape` error at that character.
pub proof fn law_simple_escapes(e: char, c: char)
    ensures
        ((e == '"' && c == '"') || (e == '\\' && c == '\\') || (e == '/' && c == '/') || (e == 'b'
            && c == '\u{8}') || (e == 'f' && c == '\u{c}') || (e == 'n' && c == '\n') || (e == 'r'
            && c == '\r') || (e == 't' && c == '\t')) ==> spec_tokenize(seq!['"', '\\', e, '"'])
            == Ok::<Seq<SpecToken>, SpecError>(seq![SpecToken::String(seq![c])]),
        !(e == '"' || e == '\\' || e == '/' || e == 'b' || e == 'f' || e == 'n' || e == 'r' || e
            == 't' || e == 'u') ==> spec_tokenize(seq!['"', '\\', e, '"']) == Err::<
            Seq<SpecToken>,
            SpecError,
        >(SpecError::InvalidEscape { ch: e, position: 2 }),
{
    let input = seq!['"', '\\', e, '"'];
    let empty = Seq::<char>::empty();
    assert(input[0] == '"' && input[1] == '\\' && input[2] == e && input[3] == '"');
    assert(next_token(input, 0) == string_token(input, 1));
    if let Some(x) = simple_escape(e) {
        assert(empty.push(x) =~= seq![x]);
        assert(scan_string(input, 3, seq![x]) == (Ok::<Seq<char>, SpecError>(seq![x]), 4int));
        let acc = Seq::<SpecToken>::empty().push(SpecToken::String(seq![x]));
        assert(acc =~= seq![SpecToken::String(seq![x])]);
        assert(tokenize_from(input, 4, acc) == (Ok::<Seq<SpecToken>, SpecError>(acc), 4int));
    }
}

/// The token that a punctuation character writes: `{`, `}`, `[`, `]`, `:`
/// and `,` write an opening and a closing brace, an opening and a closing
/// bracket, a colon and a comma.
pub open spec fn punctuation_token(c: char) -> SpecToken {
    if c == '{' {
        SpecToken::LeftBrace
    } else if c == '}' {
        SpecToken::RightBrace
    } else if c == '[' {
        SpecToken::LeftBracket
    } else if c == ']' {
        SpecToken::RightBracket
    } else if c == ':' {
        SpecToken::Colon
    } else {
        SpecToken::Comma
    }
}

/// A punctuation character of JSON.
pub open spec fn is_punctuation_char(c: char) -> bool {
    c == '{' || c == '}' || c == '[' || c == ']' || c == ':' || c == ','
}

proof fn lemma_punctuation_run(t: Seq<char>, i: int)
    requires
        0 <= i <= t.len(),
        forall|m: int| 0 <= m < t.len() ==> is_punctuation_char(#[trigger] t[m]),
    ensures
        tokenize_from(t, i, t.take(i).map_values(|c: char| punctuation_token(c))).0 == Ok::<
            Seq<SpecToken>,
            SpecError,
        >(t.map_values(|c: char| punctuation_token(c))),
    decreases t.len() - i,
{
    if i < t.len() {
        assert(is_punctuation_char(t[i]));
        assert(t.take(i).map_values(|c: char| punctuation_token(c)).push(punctuation_token(t[i]))
            =~= t.take(i + 1).map_values(|c: char| punctuation_token(c)));
        lemma_punctuation_run(t, i + 1);
    } else {
        assert(t.take(i) =~= t);
    }
}

/// Law: a text of punctuation characters is one token per character: `{`
/// an opening brace, `}` a closing brace, `[` an opening bracket, `]` a
/// closing bracket, `:` a colon, `,` a comma.
pub proof fn law_punctuation_tokens(t: Seq<char>)
    requires
        forall|m: int| 0 <= m < t.len() ==> is_punctuation_char(#[trigger] t[m]),
    ensures
        spec_tokenize(t) == Ok::<Seq<SpecToken>, SpecError>(
            t.map_values(|c: char| punctuation_token(c)),
        ),
{
    assert(t.take(0).map_values(|c: char| punctuation_token(c)) =~= Seq::<SpecToken>::empty());
    lemma_punctuation_run(t, 0);
}

/// Law: the white space of JSON (space, tab, line feed, carriage return) in
/// front of a text changes none of its tokens, and moves an error by one
/// character.
pub proof fn law_json_whitespace(c: char, input: Seq<char>)
    requires
        c == ' ' || c == '\t' || c == '\n' || c == '\r',
    ensures
        spec_tokenize(seq![c] + input) == shift_result(spec_tokenize(input), 1),
{
    law_leading_whitespace(seq![c], input);
}

/// Law: a string literal written from any text (a backslash before each
/// backslash and quote of the text, between quotes) tokenizes to one string
/// token holding that text, and the scan ends at the end of the literal.
pub proof fn law_escaped_string_literal(s: Seq<char>)
    ensures
        tokenize_from(seq!['"'] + escape_text(s) + seq!['"'], 0, Seq::<SpecToken>::empty()) == (
            Ok::<Seq<SpecToken>, SpecError>(seq![SpecToken::String(s)]),
            escape_text(s).len() + 2int,
        ),
{
    let input = seq!['"'] + escape_text(s) + seq!['"'];
    lemma_escaped_scan(seq!['"'], s, Seq::<char>::empty());
    assert(Seq::<char>::empty() + s =~= s);
    assert(input[0] == '"');
    assert(!char_is_whitespace(input[0]));
    assert(punctuation(input[0]) is None);
    assert(string_token(input, 1) == (
        Ok::<SpecToken, SpecError>(SpecToken::String(s)),
        input.len() as int,
    ));
    let acc = Seq::<SpecToken>::empty().push(SpecToken::String(s));
    assert(acc =~= seq![SpecToken::String(s)]);
    assert(next_token(input, 0) == string_token(input, 1));
    assert(input.len() == escape_text(s).len() + 2);
    assert(tokenize_from(input, input.len() as int, acc) == (
        Ok::<Seq<SpecToken>, SpecError>(acc),
        input.len() as int,
    ));
}

// ---------------------------------------------------------------------------
// Text after the input changes none of its tokens, where it does not go on
// with the last of them.

/// `c` does not go on with a number or a keyword in front of it.
pub open spec fn ends_token(c: char) -> bool {
    !is_number_char(c) && c != '+' && !char_is_alphabetic(c)
}

proof fn lemma_extend_scan_hex(a: Seq<char>, r: Seq<char>, pos: int, acc: Seq<char>, remaining: nat)
    requires
        0 <= pos,
        scan_hex(a, pos, acc, remaining).0 is Ok,
    ensures
        scan_hex(a + r, pos, acc, remaining) == scan_hex(a, pos, acc, remaining),
    decreases remaining,
{
    if remaining > 0 {
        assert((a + r)[pos] == a[pos]);
        lemma_extend_scan_hex(a, r, pos + 1, acc.push(a[pos]), (remaining - 1) as nat);
    }
}

proof fn lemma_extend_unicode(a: Seq<char>, r: Seq<char>, pos: int)
    requires
        0 <= pos <= a.len(),
        unicode_escape(a, pos).0 is Ok,
    ensures
        unicode_escape(a + r, pos) == unicode_escape(a, pos),
{
    lemma_extend_scan_hex(a, r, pos, Seq::<char>::empty(), 4);
    lemma_scan_hex(a, pos, Seq::<char>::empty(), 4);
    let (r1, p) = scan_hex(a, pos, Seq::<char>::empty(), 4);
    if is_high_surrogate(hex_number(r1->Ok_0)) {
        assert((a + r)[p] == a[p]);
        assert((a + r)[p + 1] == a[p + 1]);
        lemma_extend_scan_hex(a, r, p + 2, Seq::<char>::empty(), 4);
    }
}

proof fn lemma_extend_scan_string(a: Seq<char>, r: Seq<char>, pos: int, acc: Seq<char>)
    requires
        0 <= pos,
        scan_string(a, pos, acc).0 is Ok,
    ensures
        scan_string(a + r, pos, acc) == scan_string(a, pos, acc),
    decreases a.len() - pos,
{
    assert((a + r)[pos] == a[pos]);
    if a[pos] == '"' {
    } else if a[pos] == '\\' {
        let e = a[pos + 1];
        assert((a + r)[pos + 1] == e);
        if let Some(c) = simple_escape(e) {
            lemma_extend_scan_string(a, r, pos + 2, acc.push(c));
        } else {
            lemma_extend_unicode(a, r, pos + 2);
            lemma_unicode_escape(a, pos + 2);
            let (u, p) = unicode_escape(a, pos + 2);
            lemma_extend_scan_string(a, r, p, acc.push(u->Ok_0));
        }
    } else {
        lemma_extend_scan_string(a, r, pos + 1, acc.push(a[pos]));
    }
}

proof fn lemma_extend_run(a: Seq<char>, r: Seq<char>, pos: int, after_mark: bool)
    requires
        0 <= pos <= a.len(),
        r.len() > 0 ==> ends_token(r[0]),
    ensures
        number_run(a + r, pos, after_mark) == number_run(a, pos, after_mark),
    decreases a.len() - pos,
{
    if pos < a.len() {
        assert((a + r)[pos] == a[pos]);
        lemma_extend_run(a, r, pos + 1, is_exponent_mark(a[pos]));
    } else if r.len() > 0 {
        assert((a + r)[pos] == r[0]);
    } else {
        assert(a + r =~= a);
    }
}

proof fn lemma_extend_ends(a: Seq<char>, r: Seq<char>, pos: int)
    requires
        0 <= pos <= a.len(),
        r.len() > 0 ==> ends_token(r[0]),
    ensures
        number_end(a + r, pos) == number_end(a, pos),
        keyword_end(a + r, pos) == keyword_end(a, pos),
    decreases a.len() - pos,
{
    lemma_extend_run(a, r, pos, false);
    if pos < a.len() {
        assert((a + r)[pos] == a[pos]);
        lemma_extend_ends(a, r, pos + 1);
    } else if r.len() > 0 {
        assert((a + r)[pos] == r[0]);
    } else {
        assert(a + r =~= a);
    }
}

/// Text `r` after `a` that does not go on with its last token leaves the
/// scan of `a` as it is, up to the end of `a`.
#[verifier::rlimit(40)]
proof fn lemma_extend_tokenize(a: Seq<char>, r: Seq<char>, pos: int, acc: Seq<SpecToken>)
    requires
        0 <= pos <= a.len(),
        r.len() > 0 ==> ends_token(r[0]),
        tokenize_from(a, pos, acc).0 is Ok,
    ensures
        tokenize_from(a + r, pos, acc) == tokenize_from(
            a + r,
            a.len() as int,
            tokenize_from(a, pos, acc).0->Ok_0,
        ),
    decreases a.len() - pos,
{
    if pos < a.len() {
        let c = a[pos];
        assert((a + r)[pos] == c);
        if char_is_whitespace(c) {
            lemma_extend_tokenize(a, r, pos + 1, acc);
        } else if let Some(t) = punctuation(c) {
            lemma_extend_tokenize(a, r, pos + 1, acc.push(t));
        } else {
            lemma_token_advances(a, pos);
            lemma_number_end(a, pos);
            lemma_keyword_end(a, pos);
            lemma_extend_ends(a, r, pos);
            if c == '"' {
                lemma_extend_scan_string(a, r, pos + 1, Seq::<char>::empty());
            }
            assert((a + r).subrange(pos, number_end(a, pos)) =~= a.subrange(pos, number_end(a, pos)));
            assert((a + r).subrange(pos, keyword_end(a, pos)) =~= a.subrange(
                pos,
                keyword_end(a, pos),
            ));
            assert(next_token(a + r, pos) == next_token(a, pos));
            let (res, p) = next_token(a, pos);
            lemma_extend_tokenize(a, r, p, acc.push(res->Ok_0));
        }
    }
}

/// White space at the end of a text adds no token.
proof fn lemma_trailing_whitespace(a: Seq<char>, w: Seq<char>, i: int, acc: Seq<SpecToken>)
    requires
        0 <= i <= w.len(),
        forall|m: int| 0 <= m < w.len() ==> char_is_whitespace(#[trigger] w[m]),
    ensures
        tokenize_from(a + w, a.len() + i, acc).0 == Ok::<Seq<SpecToken>, SpecError>(acc),
    decreases w.len() - i,
{
    if i < w.len() {
        assert((a + w)[a.len() + i] == w[i]);
        lemma_trailing_whitespace(a, w, i + 1, acc);
    }
}

/// Tokens read before change nothing of what the scan does after them.
proof fn lemma_tokens_before(b: Seq<char>, pos: int, acc: Seq<SpecToken>, acc2: Seq<SpecToken>)
    requires
        0 <= pos,
    ensures
        tokenize_from(b, pos, acc + acc2).0 == match tokenize_from(b, pos, acc2).0 {
            Ok(t) => Ok::<Seq<SpecToken>, SpecError>(acc + t),
            Err(e) => Err(e),
        },
    decreases b.len() - pos,
{
    if pos < b.len() {
        let c = b[pos];
        if char_is_whitespace(c) {
            lemma_tokens_before(b, pos + 1, acc, acc2);
        } else if let Some(t) = punctuation(c) {
            assert((acc + acc2).push(t) =~= acc + acc2.push(t));
            lemma_tokens_before(b, pos + 1, acc, acc2.push(t));
        } else {
            let (res, p) = next_token(b, pos);
            if let Ok(t) = res {
                lemma_token_advances(b, pos);
                assert((acc + acc2).push(t) =~= acc + acc2.push(t));
                lemma_tokens_before(b, p, acc, acc2.push(t));
            }
        }
    }
}

/// Law: white space after a text that tokenizes changes none of its tokens,
/// where the white space is not alphabetic (as `char::is_alphabetic`
/// decides; no ASCII white space is).
pub proof fn law_trailing_whitespace(input: Seq<char>, w: Seq<char>)
    requires
        forall|m: int| 0 <= m < w.len() ==> char_is_whitespace(#[trigger] w[m]),
        forall|m: int| 0 <= m < w.len() ==> !char_is_alphabetic(#[trigger] w[m]),
    ensures
        spec_tokenize(input) is Ok ==> spec_tokenize(input + w) == spec_tokenize(input),
{
    if spec_tokenize(input) is Ok {
        if w.len() > 0 {
            assert(char_is_whitespace(w[0]) && !char_is_alphabetic(w[0]));
        }
        lemma_tokenize_from(input, 0, Seq::<SpecToken>::empty());
        lemma_extend_tokenize(input, w, 0, Seq::<SpecToken>::empty());
        lemma_trailing_whitespace(input, w, 0, spec_tokenize(input)->Ok_0);
    }
}

/// Law: the tokens of two texts joined by a white-space character that is
/// not alphabetic (as `char::is_alphabetic` decides; no ASCII white space
/// is), such as a space, are the tokens of the first text, then those of the
/// second.
pub proof fn law_tokenize_joined(a: Seq<char>, c: char, b: Seq<char>)
    requires
        char_is_whitespace(c),
        !char_is_alphabetic(c),
    ensures
        spec_tokenize(a) is Ok && spec_tokenize(b) is Ok ==> spec_tokenize(a + seq![c] + b)
            == Ok::<Seq<SpecToken>, SpecError>(spec_tokenize(a)->Ok_0 + spec_tokenize(b)->Ok_0),
{
    if spec_tokenize(a) is Ok && spec_tokenize(b) is Ok {
        let ta = spec_tokenize(a)->Ok_0;
        let r = seq![c] + b;
        let w = a + seq![c];
        assert(a + seq![c] + b =~= a + r);
        assert(a + r =~= w + b);
        lemma_extend_tokenize(a, r, 0, Seq::<SpecToken>::empty());
        assert((a + r)[a.len() as int] == c);
        lemma_shift_tokenize_from(w, b, 0, ta);
        lemma_tokens_before(b, 0, ta, Seq::<SpecToken>::empty());
        assert(ta + Seq::<SpecToken>::empty() =~= ta);
        assert(tokenize_from(a + r, a.len() as int, ta) == tokenize_from(a + r, a.len() as int + 1, ta));
    }
}

/// Law: a word of ASCII letters is one token, `true`, `false` or `null`
/// where it is one of these words, and an `UnexpectedToken` error at
/// position 0, naming the word, where it is not.
pub proof fn law_keyword_token(t: Seq<char>)
    requires
        t.len() > 0,
        forall|m: int| 0 <= m < t.len() ==> crate::text::is_ascii_letter(#[trigger] t[m]),
    ensures
        spec_tokenize(t) == if t == "true"@ {
            Ok::<Seq<SpecToken>, SpecError>(seq![SpecToken::Boolean(true)])
        } else if t == "false"@ {
            Ok::<Seq<SpecToken>, SpecError>(seq![SpecToken::Boolean(false)])
        } else if t == "null"@ {
            Ok::<Seq<SpecToken>, SpecError>(seq![SpecToken::Null])
        } else {
            Err::<Seq<SpecToken>, SpecError>(
                SpecError::UnexpectedToken {
                    expected: "true, false, or null"@,
                    found: t,
                    position: 0,
                },
            )
        },
{
    assert forall|m: int| 0 <= m < t.len() implies char_is_alphabetic(#[trigger] t[m]) by {
        assert(crate::text::is_ascii_letter(t[m]));
    }
    lemma_keyword_end(t, 0);
    assert(keyword_end(t, 0) == t.len()) by {
        if keyword_end(t, 0) < t.len() {
            assert(char_is_alphabetic(t[keyword_end(t, 0)]));
        }
    }
    assert(t.subrange(0, t.len() as int) =~= t);
    assert(!char_is_whitespace(t[0]));
    assert(punctuation(t[0]) is None);
    assert(t[0] != '"');
    assert(!is_digit(t[0]) && t[0] != '-');
    let (r, p) = keyword_token(t, 0);
    if let Ok(tok) = r {
        let acc = Seq::<SpecToken>::empty().push(tok);
        assert(acc =~= seq![tok]);
        assert(tokenize_from(t, t.len() as int, acc).0 == Ok::<Seq<SpecToken>, SpecError>(acc));
    }
}

/// A literal made of number characters, with a `+` only after an exponent
/// mark.
pub open spec fn number_chars(t: Seq<char>) -> bool {
    forall|m: int|
        0 <= m < t.len() ==> is_number_char(#[trigger] t[m]) || (t[m] == '+' && 0 < m
            && is_exponent_mark(t[m - 1]))
}

proof fn lemma_run_whole(t: Seq<char>, pos: int)
    requires
        0 <= pos <= t.len(),
        number_chars(t),
    ensures
        number_run(t, pos, pos > 0 && is_exponent_mark(t[pos - 1])) == t.len(),
    decreases t.len() - pos,
{
    if pos < t.len() {
        assert(is_number_char(t[pos]) || (t[pos] == '+' && 0 < pos && is_exponent_mark(
            t[pos - 1],
        )));
        lemma_run_whole(t, pos + 1);
    }
}

/// Law: a text made only of digits, `.`, `-`, `e` and `E`, and of `+` right
/// after an `e` or `E`, that starts with a digit or `-`, is one number token
/// holding the decimal it denotes where the literal is valid and its value
/// in the range of `f64`, and an `InvalidNumber` error at position 0 where
/// it is not.
pub proof fn law_number_literal_token(t: Seq<char>)
    requires
        t.len() > 0,
        is_digit(t[0]) || t[0] == '-',
        number_chars(t),
    ensures
        spec_tokenize(t) == if valid_literal(t) && !out_of_range(number_of_literal(t)) {
            Ok::<Seq<SpecToken>, SpecError>(seq![SpecToken::Number(number_of_literal(t))])
        } else {
            Err::<Seq<SpecToken>, SpecError>(SpecError::InvalidNumber { value: t, position: 0 })
        },
{
    lemma_run_whole(t, 0);
    assert(number_end(t, 0) == t.len());
    assert(t.subrange(0, t.len() as int) =~= t);
    assert(!char_is_whitespace(t[0]));
    assert(punctuation(t[0]) is None);
    assert(t[0] != '"');
    let acc = Seq::<SpecToken>::empty().push(SpecToken::Number(number_of_literal(t)));
    assert(acc =~= seq![SpecToken::Number(number_of_literal(t))]);
    assert(tokenize_from(t, t.len() as int, acc).0 == Ok::<Seq<SpecToken>, SpecError>(acc));
}

proof fn lemma_plus_run(t: Seq<char>, pos: int)
    requires
        0 <= pos <= t.len(),
        forall|m: int| 0 <= m < t.len() ==> #[trigger] is_number_char(t[m]) && !is_exponent_mark(
            t[m],
        ),
    ensures
        number_run(t + seq!['+'], pos, false) == t.len(),
    decreases t.len() - pos,
{
    let u = t + seq!['+'];
    if pos < t.len() {
        assert(u[pos] == t[pos]);
        assert(is_number_char(t[pos]) && !is_exponent_mark(t[pos]));
        lemma_plus_run(t, pos + 1);
    } else {
        assert(u[pos] == '+');
    }
}

/// Law: a `+` that does not follow an exponent mark ends a number literal:
/// after a literal without exponent mark, the run of the literal stops
/// before the `+`.
pub proof fn law_plus_ends_number(t: Seq<char>)
    requires
        forall|m: int| 0 <= m < t.len() ==> #[trigger] is_number_char(t[m]) && !is_exponent_mark(
            t[m],
        ),
    ensures
        number_end(t + seq!['+'], 0) == t.len(),
{
    lemma_plus_run(t, 0);
}

// ---------------------------------------------------------------------------
// Text in front of the input moves every position, and nothing else.

/// The error with its position moved by `d`.
pub open spec fn shift_error(e: SpecError, d: int) -> SpecError {
    match e {
        SpecError::UnexpectedToken { expected, found, position } => SpecError::UnexpectedToken {
            expected,
            found,
            position: position + d,
        },
        SpecError::UnexpectedEndOfInput { expected, position } =>
            SpecError::UnexpectedEndOfInput { expected, position: position + d },
        SpecError::InvalidNumber { value, position } => SpecError::InvalidNumber {
            value,
            position: position + d,
        },
        SpecError::InvalidEscape { ch, position } => SpecError::InvalidEscape {
            ch,
            position: position + d,
        },
        SpecError::InvalidUnicode { sequence, position } => SpecError::InvalidUnicode {
            sequence,
            position: position + d,
        },
    }
}

/// The outcome with every position in it moved by `d`.
pub open spec fn shift_result<T>(r: Result<T, SpecError>, d: int) -> Result<T, SpecError> {
    match r {
        Ok(x) => Ok(x),
        Err(e) => Err(shift_error(e, d)),
    }
}

/// A step's outcome and end, with every position moved by `d`.
pub open spec fn shift_step<T>(r: (Result<T, SpecError>, int), d: int) -> (Result<T, SpecError>, int) {
    (shift_result(r.0, d), r.1 + d)
}

proof fn lemma_shift_scan_hex(w: Seq<char>, input: Seq<char>, pos: int, acc: Seq<char>, remaining: nat)
    requires
        0 <= pos,
    ensures
        scan_hex(w + input, pos + w.len(), acc, remaining) == (
            scan_hex(input, pos, acc, remaining).0,
            scan_hex(input, pos, acc, remaining).1 + w.len(),
        ),
    decreases remaining,
{
    if remaining > 0 && pos < input.len() {
        assert((w + input)[pos + w.len()] == input[pos]);
        if is_hex(input[pos]) {
            lemma_shift_scan_hex(w, input, pos + 1, acc.push(input[pos]), (remaining - 1) as nat);
        }
    }
}

proof fn lemma_shift_unicode_escape(w: Seq<char>, input: Seq<char>, pos: int)
    requires
        0 <= pos,
    ensures
        unicode_escape(w + input, pos + w.len()) == shift_step(
            unicode_escape(input, pos),
            w.len() as int,
        ),
{
    let d = w.len() as int;
    lemma_shift_scan_hex(w, input, pos, Seq::<char>::empty(), 4);
    if pos <= input.len() {
        lemma_scan_hex(input, pos, Seq::<char>::empty(), 4);
    }
    let (r, p) = scan_hex(input, pos, Seq::<char>::empty(), 4);
    if 0 <= p {
        lemma_shift_scan_hex(w, input, p + 2, Seq::<char>::empty(), 4);
        if p + 1 < input.len() {
            assert((w + input)[p + d] == input[p]);
            assert((w + input)[p + 1 + d] == input[p + 1]);
        }
    }
}

proof fn lemma_shift_scan_string(w: Seq<char>, input: Seq<char>, pos: int, acc: Seq<char>)
    requires
        0 <= pos,
    ensures
        scan_string(w + input, pos + w.len(), acc) == shift_step(
            scan_string(input, pos, acc),
            w.len() as int,
        ),
    decreases input.len() - pos,
{
    let d = w.len() as int;
    let wi = w + input;
    if pos < input.len() {
        assert(wi[pos + d] == input[pos]);
        if input[pos] == '"' {
        } else if input[pos] == '\\' {
            if pos + 1 < input.len() {
                let e = input[pos + 1];
                assert(wi[pos + 1 + d] == e);
                if let Some(c) = simple_escape(e) {
                    lemma_shift_scan_string(w, input, pos + 2, acc.push(c));
                } else if e == 'u' {
                    lemma_shift_unicode_escape(w, input, pos + 2);
                    let (r, p) = unicode_escape(input, pos + 2);
                    if let Ok(c) = r {
                        lemma_unicode_escape(input, pos + 2);
                        lemma_shift_scan_string(w, input, p, acc.push(c));
                    }
                }
            }
        } else {
            lemma_shift_scan_string(w, input, pos + 1, acc.push(input[pos]));
        }
    }
}

proof fn lemma_shift_run(w: Seq<char>, input: Seq<char>, pos: int, after_mark: bool)
    requires
        0 <= pos,
    ensures
        number_run(w + input, pos + w.len(), after_mark) == number_run(input, pos, after_mark)
            + w.len(),
    decreases input.len() - pos,
{
    if pos < input.len() {
        assert((w + input)[pos + w.len()] == input[pos]);
        lemma_shift_run(w, input, pos + 1, is_exponent_mark(input[pos]));
    }
}

proof fn lemma_shift_ends(w: Seq<char>, input: Seq<char>, pos: int)
    requires
        0 <= pos,
    ensures
        number_end(w + input, pos + w.len()) == number_end(input, pos) + w.len(),
        keyword_end(w + input, pos + w.len()) == keyword_end(input, pos) + w.len(),
    decreases input.len() - pos,
{
    lemma_shift_run(w, input, pos, false);
    if pos < input.len() {
        assert((w + input)[pos + w.len()] == input[pos]);
        lemma_shift_ends(w, input, pos + 1);
    }
}

proof fn lemma_shift_next_token(w: Seq<char>, input: Seq<char>, pos: int)
    requires
        0 <= pos < input.len(),
        !char_is_whitespace(input[pos]),
        punctuation(input[pos]) is None,
    ensures
        next_token(w + input, pos + w.len()) == shift_step(next_token(input, pos), w.len() as int),
        next_token(input, pos).0 is Ok ==> pos < next_token(input, pos).1 <= input.len(),
{
    let d = w.len() as int;
    let wi = w + input;
    assert(wi[pos + d] == input[pos]);
    lemma_token_advances(input, pos);
    lemma_shift_scan_string(w, input, pos + 1, Seq::<char>::empty());
    lemma_shift_ends(w, input, pos);
    lemma_number_end(input, pos);
    lemma_keyword_end(input, pos);
    assert(wi.subrange(pos + d, number_end(input, pos) + d) =~= input.subrange(
        pos,
        number_end(input, pos),
    ));
    assert(wi.subrange(pos + d, keyword_end(input, pos) + d) =~= input.subrange(
        pos,
        keyword_end(input, pos),
    ));
}

#[verifier::rlimit(40)]
proof fn lemma_shift_tokenize_from(w: Seq<char>, input: Seq<char>, pos: int, acc: Seq<SpecToken>)
    requires
        0 <= pos,
    ensures
        tokenize_from(w + input, pos + w.len(), acc) == shift_step(
            tokenize_from(input, pos, acc),
            w.len() as int,
        ),
    decreases input.len() - pos,
{
    let d = w.len() as int;
    let wi = w + input;
    if pos < input.len() {
        let c = input[pos];
        assert(wi[pos + d] == c);
        if char_is_whitespace(c) {
            lemma_shift_tokenize_from(w, input, pos + 1, acc);
        } else if let Some(t) = punctuation(c) {
            lemma_shift_tokenize_from(w, input, pos + 1, acc.push(t));
        } else {
            lemma_shift_next_token(w, input, pos);
            let (r, p) = next_token(input, pos);
            if let Ok(t) = r {
                lemma_shift_tokenize_from(w, input, p, acc.push(t));
            }
        }
    }
}

/// The spans moved by `d`.
pub open spec fn shift_spans(s: Seq<(int, int)>, d: int) -> Seq<(int, int)> {
    s.map_values(|x: (int, int)| (x.0 + d, x.1 + d))
}

#[verifier::rlimit(40)]
proof fn lemma_shift_spans(w: Seq<char>, input: Seq<char>, pos: int, acc: Seq<(int, int)>)
    requires
        0 <= pos,
    ensures
        token_spans_from(w + input, pos + w.len(), shift_spans(acc, w.len() as int)) == shift_spans(
            token_spans_from(input, pos, acc),
            w.len() as int,
        ),
    decreases input.len() - pos,
{
    let d = w.len() as int;
    let wi = w + input;
    if pos < input.len() {
        let c = input[pos];
        assert(wi[pos + d] == c);
        if char_is_whitespace(c) {
            lemma_shift_spans(w, input, pos + 1, acc);
        } else if punctuation(c) is Some {
            assert(shift_spans(acc, d).push((pos + d, pos + d + 1)) =~= shift_spans(
                acc.push((pos, pos + 1)),
                d,
            ));
            lemma_shift_spans(w, input, pos + 1, acc.push((pos, pos + 1)));
        } else {
            lemma_shift_next_token(w, input, pos);
            let (r, p) = next_token(input, pos);
            if r is Ok {
                assert(shift_spans(acc, d).push((pos + d, p + d)) =~= shift_spans(
                    acc.push((pos, p)),
                    d,
                ));
                lemma_shift_spans(w, input, p, acc.push((pos, p)));
            }
        }
    } else {
        assert(wi.len() <= pos + d);
    }
}

proof fn lemma_skip_whitespace_spans(w: Seq<char>, input: Seq<char>, i: int, acc: Seq<(int, int)>)
    requires
        0 <= i <= w.len(),
        forall|m: int| 0 <= m < w.len() ==> char_is_whitespace(#[trigger] w[m]),
    ensures
        token_spans_from(w + input, i, acc) == token_spans_from(w + input, w.len() as int, acc),
    decreases w.len() - i,
{
    if i < w.len() {
        assert((w + input)[i] == w[i]);
        lemma_skip_whitespace_spans(w, input, i + 1, acc);
    }
}

/// White space in front of a text moves every token's span by its length.
pub proof fn lemma_leading_whitespace_spans(w: Seq<char>, input: Seq<char>)
    requires
        forall|m: int| 0 <= m < w.len() ==> char_is_whitespace(#[trigger] w[m]),
    ensures
        spec_token_spans(w + input) == shift_spans(spec_token_spans(input), w.len() as int),
{
    lemma_skip_whitespace_spans(w, input, 0, Seq::<(int, int)>::empty());
    assert(shift_spans(Seq::<(int, int)>::empty(), w.len() as int) =~= Seq::<(int, int)>::empty());
    lemma_shift_spans(w, input, 0, Seq::<(int, int)>::empty());
}

/// There are as many spans as tokens.
pub proof fn lemma_spans_count(input: Seq<char>, pos: int, acc: Seq<SpecToken>, sacc: Seq<(int, int)>)
    requires
        0 <= pos,
        acc.len() == sacc.len(),
    ensures
        tokenize_from(input, pos, acc).0 matches Ok(t) ==> t.len() == token_spans_from(
            input,
            pos,
            sacc,
        ).len(),
    decreases input.len() - pos,
{
    if pos < input.len() {
        let c = input[pos];
        if char_is_whitespace(c) {
            lemma_spans_count(input, pos + 1, acc, sacc);
        } else if let Some(t) = punctuation(c) {
            lemma_spans_count(input, pos + 1, acc.push(t), sacc.push((pos, pos + 1)));
        } else {
            lemma_token_advances(input, pos);
            let (r, p) = next_token(input, pos);
            if let Ok(t) = r {
                lemma_spans_count(input, p, acc.push(t), sacc.push((pos, p)));
            }
        }
    }
}

proof fn lemma_skip_whitespace(w: Seq<char>, input: Seq<char>, i: int, acc: Seq<SpecToken>)
    requires
        0 <= i <= w.len(),
        forall|m: int| 0 <= m < w.len() ==> char_is_whitespace(#[trigger] w[m]),
    ensures
        tokenize_from(w + input, i, acc) == tokenize_from(w + input, w.len() as int, acc),
    decreases w.len() - i,
{
    if i < w.len() {
        assert((w + input)[i] == w[i]);
        lemma_skip_whitespace(w, input, i + 1, acc);
    }
}

/// Law: white space in front of a text changes none of its tokens; an error
/// is the same error, at a position moved by the length of the white space.
pub proof fn law_leading_whitespace(w: Seq<char>, input: Seq<char>)
    requires
        forall|m: int| 0 <= m < w.len() ==> char_is_whitespace(#[trigger] w[m]),
    ensures
        spec_tokenize(w + input) == shift_result(spec_tokenize(input), w.len() as int),
{
    lemma_skip_whitespace(w, input, 0, Seq::<SpecToken>::empty());
    lemma_shift_tokenize_from(w, input, 0, Seq::<SpecToken>::empty());
}

// ---------------------------------------------------------------------------
// The tokenizer.

/// Reads the characters of a JSON text and produces its tokens.
pub struct Tokenizer {
    input: Vec<char>,
    position: usize,
}

impl Tokenizer {
    /// The position never passes the end of the input, and the input is a
    /// text whose byte offsets fit in `usize`.
    #[verifier::type_invariant]
    closed spec fn wf(self) -> bool {
        &&& self.position <= self.input.len()
        &&& byte_len(self.input@) <= usize::MAX
    }

    /// The characters being read.
    pub closed spec fn spec_input(&self) -> Seq<char> {
        self.input@
    }

    /// The position of the next character to read.
    pub closed spec fn spec_position(&self) -> int {
        self.position as int
    }

    /// A tokenizer at the start of `input`.
    pub fn new(input: &str) -> (r: Tokenizer)
        ensures
            r.spec_input() == input@,
            r.spec_position() == 0,
    {
        let _bytes = byte_len_fits(input);
        Tokenizer { input: chars_of(input), position: 0 }
    }

    /// The next character, without moving past it.
    pub fn peek(&self) -> (r: Option<char>)
        ensures
            r == (if 0 <= self.spec_position() < self.spec_input().len() {
                Some(self.spec_input()[self.spec_position()])
            } else {
                None::<char>
            }),
    {
        if self.is_at_end() {
            None
        } else {
            Some(self.input[self.position])
        }
    }

    /// The next character, moving past it.
    pub fn advance(&mut self) -> (r: Option<char>)
        ensures
            final(self).spec_input() == old(self).spec_input(),
            r == (if 0 <= old(self).spec_position() < old(self).spec_input().len() {
                Some(old(self).spec_input()[old(self).spec_position()])
            } else {
                None::<char>
            }),
            final(self).spec_position() == (if r is Some {
                old(self).spec_position() + 1
            } else {
                old(self).spec_position()
            }),
    {
        proof {
            use_type_invariant(&*self);
        }
        if self.position >= self.input.len() {
            None
        } else {
            let ch = self.input[self.position];
            self.position = self.position + 1;
            Some(ch)
        }
    }

    /// All characters have been read.
    pub fn is_at_end(&self) -> (r: bool)
        ensures
            r == (self.spec_position() >= self.spec_input().len()),
    {
        self.position >= self.input.len()
    }

    /// Reads four hexadecimal digits: the digits read, and their value where
    /// all four are there.
    fn read_hex4(&mut self) -> (r: (String, Option<u32>))
        ensures
            final(self).spec_input() == old(self).spec_input(),
            ({
                let (sr, sp) = scan_hex(
                    old(self).spec_input(),
                    old(self).spec_position(),
                    Seq::<char>::empty(),
                    4,
                );
                &&& final(self).spec_position() == sp
                &&& match sr {
                    Ok(h) => r.0@ == h && r.1 == Some(hex_number(h) as u32) && 0 <= hex_number(h)
                        < 65536,
                    Err(h) => r.0@ == h && r.1 is None,
                }
            }),
    {
        let ghost input = self.input@;
        let ghost p0 = self.position as int;
        let mut hex_str = String::new();
        let mut code: u32 = 0;
        let mut i: usize = 0;
        while i < 4
            invariant
                self.input@ == input,
                input == old(self).spec_input(),
                p0 == old(self).spec_position(),
                0 <= i <= 4,
                self.position as int == p0 + i,
                hex_str@.len() == i,
                code as int == hex_number(hex_str@),
                i == 0 ==> code < 1,
                i == 1 ==> code < 16,
                i == 2 ==> code < 256,
                i == 3 ==> code < 4096,
                i == 4 ==> code < 65536,
                scan_hex(input, self.position as int, hex_str@, (4 - i) as nat) == scan_hex(
                    input,
                    p0,
                    Seq::<char>::empty(),
                    4,
                ),
            decreases 4 - i,
        {
            let ghost before = hex_str@;
            match self.advance() {
                Some(c) => {
                    if ('0' <= c && c <= '9') || ('a' <= c && c <= 'f') || ('A' <= c && c <= 'F') {
                        let v: u32 = if '0' <= c && c <= '9' {
                            (c as u32) - ('0' as u32)
                        } else if 'a' <= c && c <= 'f' {
                            (c as u32) - ('a' as u32) + 10
                        } else {
                            (c as u32) - ('A' as u32) + 10
                        };
                        push_char(&mut hex_str, c);
                        assert(hex_str@.drop_last() == before);
                        code = code * 16 + v;
                    } else {
                        return (hex_str, None);
                    }
                },
                None => {
                    return (hex_str, None);
                },
            }
            i = i + 1;
        }
        (hex_str, Some(code))
    }

    /// Reads the rest of a `\u` escape whose backslash and `u` have been
    /// read, and the char it names (from a surrogate pair, the char of the
    /// pair).
    fn tokenize_unicode_escape(&mut self) -> (r: Result<char, JsonError>)
        requires
            2 <= old(self).spec_position() <= old(self).spec_input().len(),
        ensures
            final(self).spec_input() == old(self).spec_input(),
            ({
                let (sr, sp) = unicode_escape(old(self).spec_input(), old(self).spec_position());
                &&& final(self).spec_position() == sp
                &&& match sr {
                    Ok(c) => r == Ok::<char, JsonError>(c),
                    Err(e) => r matches Err(x) && x@ == e,
                }
            }),
    {
        let ghost input = self.input@;
        let start = self.position - 2;
        proof {
            lemma_scan_hex(input, self.position as int, Seq::<char>::empty(), 4);
        }
        let (digits, code) = self.read_hex4();
        let code = match code {
            Some(n) => n,
            None => return Err(JsonError::InvalidUnicode { sequence: digits, position: start }),
        };
        if 0xD800 <= code && code <= 0xDBFF {
            if self.input.len() - self.position > 1 && self.input[self.position] == '\\'
                && self.input[self.position + 1] == 'u' {
                let second = self.position;
                self.advance();
                self.advance();
                let (low_digits, low) = self.read_hex4();
                match low {
                    Some(low) => {
                        if 0xDC00 <= low && low <= 0xDFFF {
                            let cp: u32 = 0x10000 + (code - 0xD800) * 0x400 + (low - 0xDC00);
                            assert(cp as int == surrogate_pair(code as int, low as int));
                            assert(is_scalar(cp as int));
                            match char_from_u32(cp) {
                                Some(c) => {
                                    assert(c == (cp as int) as char);
                                    Ok(c)
                                },
                                None => Err(
                                    JsonError::InvalidUnicode { sequence: digits, position: start },
                                ),
                            }
                        } else {
                            Err(JsonError::InvalidUnicode { sequence: digits, position: start })
                        }
                    },
                    None => {
                        Err(JsonError::InvalidUnicode { sequence: low_digits, position: second })
                    },
                }
            } else {
                Err(JsonError::InvalidUnicode { sequence: digits, position: start })
            }
        } else {
            match char_from_u32(code) {
                Some(c) => Ok(c),
                None => Err(JsonError::InvalidUnicode { sequence: digits, position: start }),
            }
        }
    }

    /// Reads a string literal whose opening quote has been read, and returns
    /// its decoded text as a `String` token.
    #[verifier::rlimit(40)]
    fn tokenize_string(&mut self) -> (r: Result<Token, JsonError>)
        requires
            old(self).spec_position() <= old(self).spec_input().len(),
        ensures
            final(self).spec_input() == old(self).spec_input(),
            ({
                let (sr, sp) = string_token(old(self).spec_input(), old(self).spec_position());
                &&& final(self).spec_position() == sp
                &&& token_result_view(r) == sr
            }),
    {
        let ghost input = self.input@;
        let start = self.position;
        let mut s = String::new();
        loop
            invariant
                self.input@ == input,
                input == old(self).spec_input(),
                start == old(self).spec_position(),
                start <= self.position <= input.len(),
                scan_string(input, self.position as int, s@) == scan_string(
                    input,
                    start as int,
                    Seq::<char>::empty(),
                ),
            decreases input.len() - self.position,
        {
            match self.peek() {
                Some(c) => {
                    if c == '"' {
                        self.advance();
                        return Ok(Token::String(s));
                    } else if c == '\\' {
                        self.advance();
                        match self.advance() {
                            Some(e) => {
                                if e == '"' {
                                    push_char(&mut s, '"');
                                } else if e == '\\' {
                                    push_char(&mut s, '\\');
                                } else if e == '/' {
                                    push_char(&mut s, '/');
                                } else if e == 'b' {
                                    push_char(&mut s, '\u{8}');
                                } else if e == 'f' {
                                    push_char(&mut s, '\u{c}');
                                } else if e == 'n' {
                                    push_char(&mut s, '\n');
                                } else if e == 'r' {
                                    push_char(&mut s, '\r');
                                } else if e == 't' {
                                    push_char(&mut s, '\t');
                                } else if e == 'u' {
                                    proof {
                                        lemma_unicode_escape(input, self.position as int);
                                    }
                                    match self.tokenize_unicode_escape() {
                                        Ok(ch) => push_char(&mut s, ch),
                                        Err(err) => return Err(err),
                                    }
                                } else {
                                    return Err(
                                        JsonError::InvalidEscape {
                                            char: e,
                                            position: self.position - 1,
                                        },
                                    );
                                }
                            },
                            None => {
                                let mut expected = String::new();
                                push_text(&mut expected, "escape character");
                                return Err(
                                    JsonError::UnexpectedEndOfInput {
                                        expected,
                                        position: self.position,
                                    },
                                );
                            },
                        }
                    } else {
                        self.advance();
                        push_char(&mut s, c);
                    }
                },
                None => {
                    let mut expected = String::new();
                    push_text(&mut expected, "closing quote");
                    return Err(
                        JsonError::UnexpectedEndOfInput { expected, position: self.input.len() },
                    );
                },
            }
        }
    }

    /// Reads a number literal and returns it as a `Number` token.
    fn tokenize_number(&mut self) -> (r: Result<Token, JsonError>)
        requires
            old(self).spec_position() <= old(self).spec_input().len(),
        ensures
            final(self).spec_input() == old(self).spec_input(),
            ({
                let (sr, sp) = number_token(old(self).spec_input(), old(self).spec_position());
                &&& final(self).spec_position() == sp
                &&& token_result_view(r) == sr
            }),
    {
        let ghost input = self.input@;
        let start = self.position;
        let mut text: Vec<char> = Vec::new();
        let mut after_mark = false;
        while self.position < self.input.len() && (('0' <= self.input[self.position]
            && self.input[self.position] <= '9') || self.input[self.position] == '.'
            || self.input[self.position] == '-' || self.input[self.position] == 'e'
            || self.input[self.position] == 'E' || (after_mark && self.input[self.position]
            == '+'))
            invariant
                self.input@ == input,
                input == old(self).spec_input(),
                start == old(self).spec_position(),
                start <= self.position <= input.len(),
                text@ == input.subrange(start as int, self.position as int),
                number_run(input, self.position as int, after_mark) == number_end(
                    input,
                    start as int,
                ),
            decreases input.len() - self.position,
        {
            let c = self.input[self.position];
            self.advance();
            text.push(c);
            after_mark = c == 'e' || c == 'E';
        }
        match JsonNumber::from_literal(&text) {
            Some(n) => Ok(Token::Number(n)),
            None => Err(JsonError::InvalidNumber { value: string_of(&text), position: start }),
        }
    }

    /// Reads an alphabetic word and returns the token of `true`, `false` or
    /// `null`.
    fn tokenize_keyword(&mut self) -> (r: Result<Token, JsonError>)
        requires
            old(self).spec_position() <= old(self).spec_input().len(),
        ensures
            final(self).spec_input() == old(self).spec_input(),
            ({
                let (sr, sp) = keyword_token(old(self).spec_input(), old(self).spec_position());
                &&& final(self).spec_position() == sp
                &&& token_result_view(r) == sr
            }),
    {
        let ghost input = self.input@;
        let start = self.position;
        let mut word: Vec<char> = Vec::new();
        while self.position < self.input.len() && is_alphabetic(self.input[self.position])
            invariant
                self.input@ == input,
                input == old(self).spec_input(),
                start == old(self).spec_position(),
                start <= self.position <= input.len(),
                word@ == input.subrange(start as int, self.position as int),
                keyword_end(input, self.position as int) == keyword_end(input, start as int),
            decreases input.len() - self.position,
        {
            let c = self.input[self.position];
            self.advance();
            word.push(c);
        }
        if chars_equal(&word, "true") {
            Ok(Token::Boolean(true))
        } else if chars_equal(&word, "false") {
            Ok(Token::Boolean(false))
        } else if chars_equal(&word, "null") {
            Ok(Token::Null)
        } else {
            let mut expected = String::new();
            push_text(&mut expected, "true, false, or null");
            Err(
                JsonError::UnexpectedToken {
                    expected,
                    found: string_of(&word),
                    position: start,
                },
            )
        }
    }

    /// Reads the rest of the input: its tokens, and for each token the byte
    /// offset where it starts and its text. Errors report indices of
    /// characters.
    #[verifier::rlimit(60)]
    fn scan(&mut self) -> (r: Result<(Vec<Token>, Vec<usize>, Vec<String>), JsonError>)
        ensures
            final(self).spec_input() == old(self).spec_input(),
            ({
                let input = old(self).spec_input();
                let (sr, sp) = tokenize_from(
                    input,
                    old(self).spec_position(),
                    Seq::<SpecToken>::empty(),
                );
                let spans = token_spans_from(
                    input,
                    old(self).spec_position(),
                    Seq::<(int, int)>::empty(),
                );
                &&& final(self).spec_position() == sp
                &&& match sr {
                    Ok(toks) => r matches Ok((t, starts, texts)) && tokens_view(t@) == toks
                        && spans.len() == toks.len() && starts@.len() == toks.len()
                        && texts@.len() == toks.len() && forall|i: int|
                        0 <= i < toks.len() ==> #[trigger] starts@[i] == byte_offset(
                            input,
                            spans[i].0,
                        ) && texts@[i]@ == input.subrange(spans[i].0, spans[i].1),
                    Err(e) => r matches Err(x) && x@ == e,
                }
            }),
    {
        proof {
            use_type_invariant(&*self);
        }
        let ghost input = self.input@;
        let ghost p0 = self.position as int;
        let mut tokens: Vec<Token> = Vec::new();
        let mut starts: Vec<usize> = Vec::new();
        let mut texts: Vec<String> = Vec::new();
        let ghost mut spans: Seq<(int, int)> = Seq::empty();
        let mut bytes = byte_offset_of(&self.input, self.position);
        assert(tokens_view(tokens@) == Seq::<SpecToken>::empty());
        while !self.is_at_end()
            invariant
                self.input@ == input,
                input == old(self).spec_input(),
                p0 == old(self).spec_position(),
                0 <= self.position <= input.len(),
                byte_len(input) <= usize::MAX,
                bytes == byte_offset(input, self.position as int),
                tokenize_from(input, self.position as int, tokens_view(tokens@)) == tokenize_from(
                    input,
                    p0,
                    Seq::<SpecToken>::empty(),
                ),
                token_spans_from(input, self.position as int, spans) == token_spans_from(
                    input,
                    p0,
                    Seq::<(int, int)>::empty(),
                ),
                spans.len() == tokens@.len(),
                starts@.len() == tokens@.len(),
                texts@.len() == tokens@.len(),
                forall|i: int|
                    0 <= i < spans.len() ==> #[trigger] starts@[i] == byte_offset(
                        input,
                        spans[i].0,
                    ) && texts@[i]@ == input.subrange(spans[i].0, spans[i].1),
            decreases input.len() - self.position,
        {
            let ghost before = tokens_view(tokens@);
            let ghost prev_starts = starts@;
            let ghost prev_texts = texts@;
            let ghost prev_spans = spans;
            let here = self.position;
            let c = self.input[self.position];
            proof {
                lemma_byte_offset_step(input, here as int);
            }
            if is_whitespace(c) {
                self.advance();
                bytes = bytes + width_of(c);
            } else if c == '{' || c == '}' || c == '[' || c == ']' || c == ':' || c == ',' {
                let t = if c == '{' {
                    Token::LeftBrace
                } else if c == '}' {
                    Token::RightBrace
                } else if c == '[' {
                    Token::LeftBracket
                } else if c == ']' {
                    Token::RightBracket
                } else if c == ':' {
                    Token::Colon
                } else {
                    Token::Comma
                };
                self.advance();
                tokens.push(t);
                starts.push(bytes);
                texts.push(text_between(&self.input, here, here + 1));
                proof {
                    spans = spans.push((here as int, here + 1));
                    assert forall|i: int| 0 <= i < spans.len() implies #[trigger] starts@[i]
                        == byte_offset(input, spans[i].0) && texts@[i]@ == input.subrange(
                        spans[i].0,
                        spans[i].1,
                    ) by {
                        if i < prev_spans.len() {
                            assert(starts@[i] == prev_starts[i]);
                            assert(texts@[i] == prev_texts[i]);
                        }
                    }
                }
                bytes = bytes + width_of(c);
            } else {
                proof {
                    lemma_token_advances(input, self.position as int);
                }
                let r = if c == '"' {
                    self.advance();
                    self.tokenize_string()
                } else if ('0' <= c && c <= '9') || c == '-' {
                    self.tokenize_number()
                } else if is_alphabetic(c) {
                    self.tokenize_keyword()
                } else {
                    let mut expected = String::new();
                    push_text(&mut expected, "valid JSON token");
                    let mut found = String::new();
                    push_char(&mut found, c);
                    Err(
                        JsonError::UnexpectedToken { expected, found, position: self.position },
                    )
                };
                match r {
                    Ok(t) => {
                        tokens.push(t);
                        starts.push(bytes);
                        texts.push(text_between(&self.input, here, self.position));
                        proof {
                            spans = spans.push((here as int, self.position as int));
                            assert forall|i: int| 0 <= i < spans.len() implies #[trigger] starts@[i]
                                == byte_offset(input, spans[i].0) && texts@[i]@
                                == input.subrange(spans[i].0, spans[i].1) by {
                                if i < prev_spans.len() {
                                    assert(starts@[i] == prev_starts[i]);
                                    assert(texts@[i] == prev_texts[i]);
                                }
                            }
                        }
                        bytes = offset_from(&self.input, here, self.position, bytes);
                    },
                    Err(e) => return Err(e),
                }
            }
            assert(tokens_view(tokens@) == before || tokens_view(tokens@) == before.push(
                tokens@.last()@,
            ));
        }
        Ok((tokens, starts, texts))
    }

    /// Reads the rest of the input and returns its tokens. An error reports
    /// the byte offset, in the UTF-8 text of the input, where the fault
    /// stands.
    pub fn tokenize(&mut self) -> (r: Result<Vec<Token>, JsonError>)
        ensures
            final(self).spec_input() == old(self).spec_input(),
            ({
                let (sr, sp) = tokenize_from(
                    old(self).spec_input(),
                    old(self).spec_position(),
                    Seq::<SpecToken>::empty(),
                );
                &&& final(self).spec_position() == sp
                &&& tokens_result_view(r) == result_in_bytes(sr, old(self).spec_input())
            }),
    {
        proof {
            use_type_invariant(&*self);
            lemma_tokenize_from(self.input@, self.position as int, Seq::<SpecToken>::empty());
        }
        match self.scan() {
            Ok((tokens, _, _)) => Ok(tokens),
            Err(e) => {
                let offset = byte_offset_of(&self.input, e.position());
                Err(e.at(offset))
            },
        }
    }

    /// The tokens of the rest of the input, where each starts (a byte offset)
    /// and its text; an error reports a byte offset.
    pub(crate) fn tokenize_with_spans(&mut self) -> (r: Result<
        (Vec<Token>, Vec<usize>, Vec<String>),
        JsonError,
    >)
        requires
            old(self).spec_position() == 0,
        ensures
            ({
                let input = old(self).spec_input();
                let spans = spec_token_spans(input);
                match spec_tokenize(input) {
                    Ok(toks) => r matches Ok((t, starts, texts)) && tokens_view(t@) == toks
                        && spans.len() == toks.len() && starts@.len() == toks.len()
                        && texts@.len() == toks.len() && forall|i: int|
                        0 <= i < toks.len() ==> #[trigger] starts@[i] == byte_offset(
                            input,
                            spans[i].0,
                        ) && texts@[i]@ == input.subrange(spans[i].0, spans[i].1),
                    Err(e) => r matches Err(x) && x@ == error_in_bytes(e, input),
                }
            }),
    {
        proof {
            use_type_invariant(&*self);
            lemma_tokenize_from(self.input@, 0, Seq::<SpecToken>::empty());
        }
        match self.scan() {
            Ok(x) => Ok(x),
            Err(e) => {
                let offset = byte_offset_of(&self.input, e.position());
                Err(e.at(offset))
            },
        }
    }
}

/// `v` holds exactly the characters of `t`.
fn chars_equal(v: &Vec<char>, t: &str) -> (r: bool)
    ensures
        r == (v@ == t@),
{
    let w = chars_of(t);
    if v.len() != w.len() {
        return false;
    }
    let mut i: usize = 0;
    while i < v.len()
        invariant
            v.len() == w.len(),
            w@ == t@,
            0 <= i <= v.len(),
            forall|m: int| 0 <= m < i ==> v@[m] == w@[m],
        decreases v.len() - i,
    {
        if v[i] != w[i] {
            return false;
        }
        i = i + 1;
    }
    assert(v@ == w@);
    true
}

/// The tokens of a JSON text. An error reports the byte offset, in the
/// UTF-8 text of `input`, where the fault stands.
pub fn tokenize(input: &str) -> (r: Result<Vec<Token>, JsonError>)
    ensures
        tokens_result_view(r) == result_in_bytes(spec_tokenize(input@), input@),
{
    let mut t = Tokenizer::new(input);
    t.tokenize()
}

} // verus!
