//! The parser: from a sequence of tokens to a JSON value.
//!
//! As for the tokenizer, the spec functions below follow the parse step by
//! step; inside the parse, positions are indices into the token sequence.
//! The errors that the parser hands out name the token by its text and give
//! the byte offset where it starts in the UTF-8 text of the input (or, where
//! the tokens ran out, the byte length of the input).

use vstd::prelude::*;
use crate::error::{JsonError, SpecError, error_position};
use crate::tokenizer::{
    Token, SpecToken, Tokenizer, tokens_view, spec_tokenize, token_debug, spec_token_spans,
    error_in_bytes,
};
use crate::text::{byte_len, byte_offset, byte_len_fits};
use crate::value::{JsonValue, JsonObject, SpecValue, values_view};
use crate::text::push_text;

verus! {

/// The two tokens are of the same kind (their payloads aside).
pub open spec fn same_kind(a: SpecToken, b: SpecToken) -> bool {
    match (a, b) {
        (SpecToken::LeftBrace, SpecToken::LeftBrace) => true,
        (SpecToken::RightBrace, SpecToken::RightBrace) => true,
        (SpecToken::LeftBracket, SpecToken::LeftBracket) => true,
        (SpecToken::RightBracket, SpecToken::RightBracket) => true,
        (SpecToken::Comma, SpecToken::Comma) => true,
        (SpecToken::Colon, SpecToken::Colon) => true,
        (SpecToken::String(_), SpecToken::String(_)) => true,
        (SpecToken::Number(_), SpecToken::Number(_)) => true,
        (SpecToken::Boolean(_), SpecToken::Boolean(_)) => true,
        (SpecToken::Null, SpecToken::Null) => true,
        _ => false,
    }
}

/// There is a token at `pos`, of the kind of `kind`.
pub open spec fn check_at(toks: Seq<SpecToken>, pos: int, kind: SpecToken) -> bool {
    0 <= pos < toks.len() && same_kind(toks[pos], kind)
}

/// The value that starts at `pos`, and the position after it.
pub open spec fn parse_value_at(toks: Seq<SpecToken>, pos: int) -> (Result<SpecValue, SpecError>, int)
    decreases toks.len() - pos, 2int,
{
    if pos < 0 || pos >= toks.len() {
        (Err(SpecError::UnexpectedEndOfInput { expected: "JSON value"@, position: pos }), pos)
    } else {
        match toks[pos] {
            SpecToken::LeftBracket => parse_array_at(toks, pos),
            SpecToken::LeftBrace => parse_object_at(toks, pos),
            SpecToken::String(s) => (Ok(SpecValue::String(s)), pos + 1),
            SpecToken::Number(n) => (Ok(SpecValue::Number(n)), pos + 1),
            SpecToken::Boolean(b) => (Ok(SpecValue::Boolean(b)), pos + 1),
            SpecToken::Null => (Ok(SpecValue::Null), pos + 1),
            t => (
                Err(
                    SpecError::UnexpectedToken {
                        expected: "JSON value"@,
                        found: token_debug(t),
                        position: pos,
                    },
                ),
                pos,
            ),
        }
    }
}

/// The array whose `[` stands at `pos`.
pub open spec fn parse_array_at(toks: Seq<SpecToken>, pos: int) -> (Result<SpecValue, SpecError>, int)
    decreases toks.len() - pos, 1int,
{
    if pos < 0 || pos >= toks.len() {
        (Err(SpecError::UnexpectedEndOfInput { expected: "JSON value"@, position: pos }), pos)
    } else if check_at(toks, pos + 1, SpecToken::RightBracket) {
        (Ok(SpecValue::Array(Seq::<SpecValue>::empty())), pos + 2)
    } else {
        array_elements(toks, pos + 1, Seq::<SpecValue>::empty())
    }
}

/// The elements of an array from `pos` on, after the elements `acc`.
pub open spec fn array_elements(toks: Seq<SpecToken>, pos: int, acc: Seq<SpecValue>) -> (Result<
    SpecValue,
    SpecError,
>, int)
    decreases toks.len() - pos, 3int,
{
    let (r, p1) = parse_value_at(toks, pos);
    match r {
        Err(e) => (Err(e), p1),
        Ok(v) => {
            let acc2 = acc.push(v);
            if check_at(toks, p1, SpecToken::Comma) {
                let p2 = p1 + 1;
                if check_at(toks, p2, SpecToken::RightBracket) {
                    (
                        Err(
                            SpecError::UnexpectedToken {
                                expected: "JSON value"@,
                                found: "]"@,
                                position: p2,
                            },
                        ),
                        p2,
                    )
                } else if p2 > pos {
                    array_elements(toks, p2, acc2)
                } else {
                    (Err(SpecError::UnexpectedEndOfInput { expected: "JSON value"@, position: p2 }), p2)
                }
            } else if check_at(toks, p1, SpecToken::RightBracket) {
                (Ok(SpecValue::Array(acc2)), p1 + 1)
            } else if !(0 <= p1 < toks.len()) {
                (Err(SpecError::UnexpectedEndOfInput { expected: "] or ,"@, position: p1 }), p1)
            } else {
                (
                    Err(
                        SpecError::UnexpectedToken {
                            expected: "] or ,"@,
                            found: token_debug(toks[p1]),
                            position: p1,
                        },
                    ),
                    p1,
                )
            }
        },
    }
}

/// The object whose `{` stands at `pos`.
pub open spec fn parse_object_at(toks: Seq<SpecToken>, pos: int) -> (Result<SpecValue, SpecError>, int)
    decreases toks.len() - pos, 1int,
{
    if pos < 0 || pos >= toks.len() {
        (Err(SpecError::UnexpectedEndOfInput { expected: "JSON value"@, position: pos }), pos)
    } else if check_at(toks, pos + 1, SpecToken::RightBrace) {
        (Ok(SpecValue::Object(Map::<Seq<char>, SpecValue>::empty())), pos + 2)
    } else {
        object_members(toks, pos + 1, Map::<Seq<char>, SpecValue>::empty())
    }
}

/// The members of an object from `pos` on, after the members `acc`; a key
/// that comes again replaces the earlier value.
pub open spec fn object_members(
    toks: Seq<SpecToken>,
    pos: int,
    acc: Map<Seq<char>, SpecValue>,
) -> (Result<SpecValue, SpecError>, int)
    decreases toks.len() - pos, 3int,
{
    if !(0 <= pos < toks.len()) {
        (Err(SpecError::UnexpectedEndOfInput { expected: "string key"@, position: pos }), pos)
    } else {
        match toks[pos] {
            SpecToken::String(k) => {
                let p1 = pos + 1;
                if !(0 <= p1 < toks.len()) {
                    (Err(SpecError::UnexpectedEndOfInput { expected: ":"@, position: p1 }), p1)
                } else if !(toks[p1] is Colon) {
                    (
                        Err(
                            SpecError::UnexpectedToken {
                                expected: ":"@,
                                found: token_debug(toks[p1]),
                                position: p1,
                            },
                        ),
                        p1 + 1,
                    )
                } else {
                    let (r, p3) = parse_value_at(toks, p1 + 1);
                    match r {
                        Err(e) => (Err(e), p3),
                        Ok(v) => {
                            let acc2 = acc.insert(k, v);
                            if !(0 <= p3 < toks.len()) {
                                (
                                    Err(
                                        SpecError::UnexpectedEndOfInput {
                                            expected: "} or ,"@,
                                            position: p3,
                                        },
                                    ),
                                    p3,
                                )
                            } else {
                                match toks[p3] {
                                    SpecToken::RightBrace => (Ok(SpecValue::Object(acc2)), p3 + 1),
                                    SpecToken::Comma => {
                                        let p4 = p3 + 1;
                                        if check_at(toks, p4, SpecToken::RightBrace) {
                                            (
                                                Err(
                                                    SpecError::UnexpectedToken {
                                                        expected: "string key"@,
                                                        found: "}"@,
                                                        position: p4,
                                                    },
                                                ),
                                                p4,
                                            )
                                        } else if p4 > pos {
                                            object_members(toks, p4, acc2)
                                        } else {
                                            (
                                                Err(
                                                    SpecError::UnexpectedEndOfInput {
                                                        expected: "string key"@,
                                                        position: p4,
                                                    },
                                                ),
                                                p4,
                                            )
                                        }
                                    },
                                    t => (
                                        Err(
                                            SpecError::UnexpectedToken {
                                                expected: "} or ,"@,
                                                found: token_debug(t),
                                                position: p3,
                                            },
                                        ),
                                        p3 + 1,
                                    ),
                                }
                            }
                        },
                    }
                }
            },
            t => (
                Err(
                    SpecError::UnexpectedToken {
                        expected: "string key"@,
                        found: token_debug(t),
                        position: pos,
                    },
                ),
                pos + 1,
            ),
        }
    }
}

/// The value that starts at `pos`, which must end at the last token: a
/// token after it is an error.
pub open spec fn parse_all(toks: Seq<SpecToken>, pos: int) -> Result<SpecValue, SpecError> {
    let (r, p) = parse_value_at(toks, pos);
    match r {
        Ok(v) => if 0 <= p < toks.len() {
            Err(
                SpecError::UnexpectedToken {
                    expected: "end of input"@,
                    found: token_debug(toks[p]),
                    position: p,
                },
            )
        } else {
            Ok(v)
        },
        Err(e) => Err(e),
    }
}

/// A parse error as it is reported: an unexpected token (at index `p`) is
/// named by its text, `texts[p]`, at the byte offset where it starts,
/// `starts[p]`; the end of the tokens is reported at `end`, the byte length
/// of the input.
pub open spec fn relocate(e: SpecError, starts: Seq<int>, texts: Seq<Seq<char>>, end: int) -> SpecError {
    match e {
        SpecError::UnexpectedToken { expected, found, position } => if 0 <= position
            < starts.len() && position < texts.len() {
            SpecError::UnexpectedToken {
                expected,
                found: texts[position],
                position: starts[position],
            }
        } else {
            e
        },
        SpecError::UnexpectedEndOfInput { expected, .. } => SpecError::UnexpectedEndOfInput {
            expected,
            position: end,
        },
        _ => e,
    }
}

/// A parse outcome as it is reported.
pub open spec fn relocated(
    r: Result<SpecValue, SpecError>,
    starts: Seq<int>,
    texts: Seq<Seq<char>>,
    end: int,
) -> Result<SpecValue, SpecError> {
    match r {
        Ok(v) => Ok(v),
        Err(e) => Err(relocate(e, starts, texts, end)),
    }
}

/// The byte offset where each token of `input` starts.
pub open spec fn token_starts(input: Seq<char>) -> Seq<int> {
    spec_token_spans(input).map_values(|s: (int, int)| byte_offset(input, s.0) as int)
}

/// The text of each token of `input`, as it stands in the input.
pub open spec fn token_texts(input: Seq<char>) -> Seq<Seq<char>> {
    spec_token_spans(input).map_values(|s: (int, int)| input.subrange(s.0, s.1))
}

/// The outcome of parsing a whole text: its tokens, then the value that
/// they make up, which must take all of them.
pub open spec fn spec_parse_json(input: Seq<char>) -> Result<SpecValue, SpecError> {
    match spec_tokenize(input) {
        Ok(toks) => relocated(
            parse_all(toks, 0),
            token_starts(input),
            token_texts(input),
            byte_len(input) as int,
        ),
        Err(e) => Err(error_in_bytes(e, input)),
    }
}

/// The plain value of a parse result.
pub open spec fn value_result_view(r: Result<JsonValue, JsonError>) -> Result<SpecValue, SpecError> {
    match r {
        Ok(v) => Ok(v@),
        Err(e) => Err(e@),
    }
}

// ---------------------------------------------------------------------------
// Each successful step moves forward, and errors stay within the tokens.

/// What holds of every step's outcome from `pos`: a value ends after `pos`
/// and within the tokens; an error is an unexpected token, at the index of
/// a token, or the end of the tokens, at a position within them.
pub open spec fn step_ok(r: (Result<SpecValue, SpecError>, int), pos: int, len: int) -> bool {
    match r.0 {
        Ok(_) => pos < r.1 <= len,
        Err(e) => 0 <= error_position(e) <= len && pos <= r.1 <= len + 1 && (e is UnexpectedToken
            ==> error_position(e) < len) && (e is UnexpectedToken || e is UnexpectedEndOfInput),
    }
}

pub proof fn lemma_parse_value(toks: Seq<SpecToken>, pos: int)
    requires
        0 <= pos <= toks.len(),
    ensures
        step_ok(parse_value_at(toks, pos), pos, toks.len() as int),
    decreases toks.len() - pos, 2int,
{
    if pos < toks.len() {
        match toks[pos] {
            SpecToken::LeftBracket => lemma_parse_array(toks, pos),
            SpecToken::LeftBrace => lemma_parse_object(toks, pos),
            _ => {},
        }
    }
}

pub proof fn lemma_parse_array(toks: Seq<SpecToken>, pos: int)
    requires
        0 <= pos < toks.len(),
    ensures
        step_ok(parse_array_at(toks, pos), pos, toks.len() as int),
    decreases toks.len() - pos, 1int,
{
    if !check_at(toks, pos + 1, SpecToken::RightBracket) {
        lemma_array_elements(toks, pos + 1, Seq::<SpecValue>::empty());
    }
}

pub proof fn lemma_array_elements(toks: Seq<SpecToken>, pos: int, acc: Seq<SpecValue>)
    requires
        0 <= pos <= toks.len(),
    ensures
        step_ok(array_elements(toks, pos, acc), pos, toks.len() as int),
    decreases toks.len() - pos, 3int,
{
    lemma_parse_value(toks, pos);
    let (r, p1) = parse_value_at(toks, pos);
    if let Ok(v) = r {
        if check_at(toks, p1, SpecToken::Comma) && !check_at(toks, p1 + 1, SpecToken::RightBracket) {
            lemma_array_elements(toks, p1 + 1, acc.push(v));
        }
    }
}

pub proof fn lemma_parse_object(toks: Seq<SpecToken>, pos: int)
    requires
        0 <= pos < toks.len(),
    ensures
        step_ok(parse_object_at(toks, pos), pos, toks.len() as int),
    decreases toks.len() - pos, 1int,
{
    if !check_at(toks, pos + 1, SpecToken::RightBrace) {
        lemma_object_members(toks, pos + 1, Map::<Seq<char>, SpecValue>::empty());
    }
}

pub proof fn lemma_object_members(toks: Seq<SpecToken>, pos: int, acc: Map<Seq<char>, SpecValue>)
    requires
        0 <= pos <= toks.len(),
    ensures
        step_ok(object_members(toks, pos, acc), pos, toks.len() as int),
    decreases toks.len() - pos, 3int,
{
    if 0 <= pos < toks.len() {
        if let SpecToken::String(k) = toks[pos] {
            let p1 = pos + 1;
            if 0 <= p1 < toks.len() && toks[p1] is Colon {
                lemma_parse_value(toks, p1 + 1);
                let (r, p3) = parse_value_at(toks, p1 + 1);
                if let Ok(v) = r {
                    if 0 <= p3 < toks.len() && toks[p3] is Comma && !check_at(
                        toks,
                        p3 + 1,
                        SpecToken::RightBrace,
                    ) {
                        lemma_object_members(toks, p3 + 1, acc.insert(k, v));
                    }
                }
            }
        }
    }
}

/// Law: parsing from a position inside the tokens either yields a value and
/// moves past at least one token, staying within the tokens, or fails with
/// an error that reports a position within the tokens.
pub proof fn law_parse_step(toks: Seq<SpecToken>, pos: int)
    requires
        0 <= pos <= toks.len(),
    ensures
        step_ok(parse_value_at(toks, pos), pos, toks.len() as int),
{
    lemma_parse_value(toks, pos);
}

/// Law: every error of `parse_json` reports a byte offset within the
/// input: no larger than the byte length of its UTF-8 text.
pub proof fn law_parse_json_error_within_input(input: Seq<char>)
    ensures
        spec_parse_json(input) matches Err(e) ==> 0 <= error_position(e) <= byte_len(input),
{
    crate::tokenizer::law_tokenize_error_within_input(input);
    crate::text::lemma_len_le_byte_len(input);
    match spec_tokenize(input) {
        Err(e) => {
            crate::text::lemma_byte_offset_bound(input, error_position(e));
        },
        Ok(toks) => {
            lemma_parse_value(toks, 0);
            crate::tokenizer::lemma_spans_within(input, 0, Seq::<(int, int)>::empty());
            let spans = spec_token_spans(input);
            if let Err(e) = parse_all(toks, 0) {
                let q = error_position(e);
                if 0 <= q < spans.len() {
                    crate::text::lemma_byte_offset_bound(input, spans[q].0);
                }
            }
        },
    }
}

// ---------------------------------------------------------------------------
// Laws of whole inputs.

/// A token that is a whole value by itself.
pub open spec fn is_scalar_token(t: SpecToken) -> bool {
    t is String || t is Number || t is Boolean || t is Null
}

/// The value of a scalar token.
pub open spec fn scalar_value(t: SpecToken) -> SpecValue {
    match t {
        SpecToken::String(s) => SpecValue::String(s),
        SpecToken::Number(n) => SpecValue::Number(n),
        SpecToken::Boolean(b) => SpecValue::Boolean(b),
        _ => SpecValue::Null,
    }
}

/// The tokens of an array of the scalar tokens `ts`: `[`, the tokens
/// separated by commas, `]`.
pub open spec fn array_tokens(ts: Seq<SpecToken>) -> Seq<SpecToken> {
    if ts.len() == 0 {
        seq![SpecToken::LeftBracket, SpecToken::RightBracket]
    } else {
        Seq::new(
            (2 * ts.len() + 1) as nat,
            |j: int|
                if j == 0 {
                    SpecToken::LeftBracket
                } else if j == 2 * ts.len() {
                    SpecToken::RightBracket
                } else if j % 2 == 1 {
                    ts[(j - 1) / 2]
                } else {
                    SpecToken::Comma
                },
        )
    }
}

proof fn lemma_scalar_elements(ts: Seq<SpecToken>, i: int)
    requires
        ts.len() > 0,
        0 <= i < ts.len(),
        forall|m: int| 0 <= m < ts.len() ==> is_scalar_token(#[trigger] ts[m]),
    ensures
        array_elements(array_tokens(ts), 1 + 2 * i, ts.map_values(|t: SpecToken| scalar_value(t)).take(i))
            == (Ok::<SpecValue, SpecError>(
            SpecValue::Array(ts.map_values(|t: SpecToken| scalar_value(t))),
        ), 2 * ts.len() as int + 1),
    decreases ts.len() - i,
{
    let toks = array_tokens(ts);
    let vals = ts.map_values(|t: SpecToken| scalar_value(t));
    let n = ts.len() as int;
    assert(toks.len() == 2 * n + 1);
    assert((1 + 2 * i - 1) / 2 == i);
    assert(toks[1 + 2 * i] == ts[i]);
    assert(parse_value_at(toks, 1 + 2 * i) == (Ok::<SpecValue, SpecError>(vals[i]), 2 + 2 * i));
    assert(vals.take(i).push(vals[i]) =~= vals.take(i + 1));
    if i < n - 1 {
        assert(toks[2 + 2 * i] == SpecToken::Comma);
        assert((3 + 2 * i - 1) / 2 == i + 1);
        assert(toks[3 + 2 * i] == ts[i + 1]);
        lemma_scalar_elements(ts, i + 1);
        assert(1 + 2 * (i + 1) == 3 + 2 * i);
    } else {
        assert(toks[2 * n] == SpecToken::RightBracket);
        assert(vals.take(n) =~= vals);
    }
}

/// Law: `[`, scalar tokens separated by commas, `]` parse to the array of
/// their values, and the parse ends after the `]`.
pub proof fn law_array_of_scalars(ts: Seq<SpecToken>)
    requires
        forall|m: int| 0 <= m < ts.len() ==> is_scalar_token(#[trigger] ts[m]),
    ensures
        parse_value_at(array_tokens(ts), 0) == (Ok::<SpecValue, SpecError>(
            SpecValue::Array(ts.map_values(|t: SpecToken| scalar_value(t))),
        ), array_tokens(ts).len() as int),
{
    let toks = array_tokens(ts);
    if ts.len() == 0 {
        assert(ts.map_values(|t: SpecToken| scalar_value(t)) =~= Seq::<SpecValue>::empty());
    } else {
        assert(toks[0] == SpecToken::LeftBracket);
        assert(toks[1] == ts[0]);
        lemma_scalar_elements(ts, 0);
        assert(ts.map_values(|t: SpecToken| scalar_value(t)).take(0) =~= Seq::<SpecValue>::empty());
    }
}

/// Law: in an object, a key that comes again replaces the earlier value:
/// `{k: a, k: b}` parses to the object that maps `k` to `b` alone.
pub proof fn law_repeated_key_last_wins(k: Seq<char>, a: SpecToken, b: SpecToken)
    requires
        is_scalar_token(a),
        is_scalar_token(b),
    ensures
        parse_value_at(
            seq![
                SpecToken::LeftBrace,
                SpecToken::String(k),
                SpecToken::Colon,
                a,
                SpecToken::Comma,
                SpecToken::String(k),
                SpecToken::Colon,
                b,
                SpecToken::RightBrace,
            ],
            0,
        ) == (Ok::<SpecValue, SpecError>(
            SpecValue::Object(Map::<Seq<char>, SpecValue>::empty().insert(k, scalar_value(b))),
        ), 9int),
{
    let toks = seq![
        SpecToken::LeftBrace,
        SpecToken::String(k),
        SpecToken::Colon,
        a,
        SpecToken::Comma,
        SpecToken::String(k),
        SpecToken::Colon,
        b,
        SpecToken::RightBrace,
    ];
    let m1 = Map::<Seq<char>, SpecValue>::empty().insert(k, scalar_value(a));
    let m2 = m1.insert(k, scalar_value(b));
    assert(m2 =~= Map::<Seq<char>, SpecValue>::empty().insert(k, scalar_value(b)));
    assert(parse_value_at(toks, 3) == (Ok::<SpecValue, SpecError>(scalar_value(a)), 4int));
    assert(parse_value_at(toks, 7) == (Ok::<SpecValue, SpecError>(scalar_value(b)), 8int));
    assert(object_members(toks, 5, m1) == (Ok::<SpecValue, SpecError>(SpecValue::Object(m2)), 9int));
    assert(object_members(toks, 1, Map::<Seq<char>, SpecValue>::empty()) == object_members(
        toks,
        5,
        m1,
    ));
}

/// Law: white space in front of a text moves the position of any error
/// that `parse_json` reports by the byte length of the white space, and
/// changes nothing else.
#[verifier::rlimit(40)]
pub proof fn law_parse_json_leading_whitespace(w: Seq<char>, input: Seq<char>)
    requires
        forall|m: int| 0 <= m < w.len() ==> crate::text::char_is_whitespace(#[trigger] w[m]),
    ensures
        spec_parse_json(w + input) == crate::tokenizer::shift_result(
            spec_parse_json(input),
            byte_len(w) as int,
        ),
{
    let d = w.len() as int;
    crate::tokenizer::law_leading_whitespace(w, input);
    crate::tokenizer::law_tokenize_error_within_input(input);
    crate::text::lemma_byte_offset_shift(w, input, 0);
    match spec_tokenize(input) {
        Err(e) => {
            crate::text::lemma_byte_offset_shift(w, input, error_position(e));
        },
        Ok(toks) => {
            let spans = spec_token_spans(input);
            crate::tokenizer::lemma_leading_whitespace_spans(w, input);
            crate::tokenizer::lemma_spans_count(
                input,
                0,
                Seq::<SpecToken>::empty(),
                Seq::<(int, int)>::empty(),
            );
            crate::tokenizer::lemma_spans_within(input, 0, Seq::<(int, int)>::empty());
            lemma_parse_value(toks, 0);
            if let Err(e) = parse_all(toks, 0) {
                let q = error_position(e);
                if e is UnexpectedToken {
                    let sp = spans[q];
                    crate::text::lemma_byte_offset_shift(w, input, sp.0);
                    assert((w + input).subrange(sp.0 + d, sp.1 + d) =~= input.subrange(sp.0, sp.1));
                    assert(token_starts(w + input)[q] == byte_len(w) + token_starts(input)[q]);
                    assert(token_texts(w + input)[q] == token_texts(input)[q]);
                }
            }
        }
    }
}

/// Law: white space around a text does not change the value that
/// `parse_json` reads from it, where the white space after it is not
/// alphabetic (as `char::is_alphabetic` decides).
pub proof fn law_parse_json_surrounding_whitespace(w1: Seq<char>, input: Seq<char>, w2: Seq<char>)
    requires
        forall|m: int| 0 <= m < w1.len() ==> crate::text::char_is_whitespace(#[trigger] w1[m]),
        forall|m: int| 0 <= m < w2.len() ==> crate::text::char_is_whitespace(#[trigger] w2[m]),
        forall|m: int| 0 <= m < w2.len() ==> !crate::text::char_is_alphabetic(#[trigger] w2[m]),
    ensures
        spec_parse_json(input) is Ok ==> spec_parse_json(w1 + input + w2) == spec_parse_json(input),
{
    crate::tokenizer::law_trailing_whitespace(input, w2);
    crate::tokenizer::law_leading_whitespace(w1, input + w2);
    assert(w1 + input + w2 =~= w1 + (input + w2));
}

// ---------------------------------------------------------------------------
// The grammar: every value written out in tokens parses to that value.

/// A JSON value as it is written: a scalar token, an array of values, or an
/// object of members (key and value) in the order written.
pub enum JsonTree {
    Scalar(SpecToken),
    Array(Seq<JsonTree>),
    Object(Seq<(Seq<char>, JsonTree)>),
}

/// Every scalar of the tree is a scalar token.
pub open spec fn tree_wf(t: JsonTree) -> bool
    decreases t, 0int,
{
    match t {
        JsonTree::Scalar(tok) => is_scalar_token(tok),
        JsonTree::Array(items) => items_wf(items, 0),
        JsonTree::Object(ms) => members_wf(ms, 0),
    }
}

/// The items from `i` on are well formed.
pub open spec fn items_wf(items: Seq<JsonTree>, i: int) -> bool
    decreases items, items.len() - i,
{
    if i < 0 || i >= items.len() {
        true
    } else {
        tree_wf(items[i]) && items_wf(items, i + 1)
    }
}

/// The members from `i` on are well formed.
pub open spec fn members_wf(ms: Seq<(Seq<char>, JsonTree)>, i: int) -> bool
    decreases ms, ms.len() - i,
{
    if i < 0 || i >= ms.len() {
        true
    } else {
        tree_wf(ms[i].1) && members_wf(ms, i + 1)
    }
}

/// The tokens that write the tree: `[` items separated by `,` `]`, and `{`
/// members (`key` `:` value) separated by `,` `}`.
pub open spec fn tree_tokens(t: JsonTree) -> Seq<SpecToken>
    decreases t, 0int,
{
    match t {
        JsonTree::Scalar(tok) => seq![tok],
        JsonTree::Array(items) => seq![SpecToken::LeftBracket] + items_tokens(items, 0) + seq![
            SpecToken::RightBracket,
        ],
        JsonTree::Object(ms) => seq![SpecToken::LeftBrace] + members_tokens(ms, 0) + seq![
            SpecToken::RightBrace,
        ],
    }
}

/// The tokens of the items from `i` on, separated by commas.
pub open spec fn items_tokens(items: Seq<JsonTree>, i: int) -> Seq<SpecToken>
    decreases items, items.len() - i,
{
    if i < 0 || i >= items.len() {
        Seq::<SpecToken>::empty()
    } else if i == items.len() - 1 {
        tree_tokens(items[i])
    } else {
        tree_tokens(items[i]) + seq![SpecToken::Comma] + items_tokens(items, i + 1)
    }
}

/// The tokens of one member: its key, a colon, its value.
pub open spec fn member_tokens(ms: Seq<(Seq<char>, JsonTree)>, i: int) -> Seq<SpecToken>
    decreases ms, 0int,
{
    if 0 <= i < ms.len() {
        seq![SpecToken::String(ms[i].0), SpecToken::Colon] + tree_tokens(ms[i].1)
    } else {
        Seq::<SpecToken>::empty()
    }
}

/// The tokens of the members from `i` on, separated by commas.
pub open spec fn members_tokens(ms: Seq<(Seq<char>, JsonTree)>, i: int) -> Seq<SpecToken>
    decreases ms, ms.len() - i,
{
    if i < 0 || i >= ms.len() {
        Seq::<SpecToken>::empty()
    } else if i == ms.len() - 1 {
        member_tokens(ms, i)
    } else {
        member_tokens(ms, i) + seq![SpecToken::Comma] + members_tokens(ms, i + 1)
    }
}

/// The value that the tree denotes; in an object, a key that comes again
/// replaces the earlier value.
pub open spec fn denote(t: JsonTree) -> SpecValue
    decreases t, 0int,
{
    match t {
        JsonTree::Scalar(tok) => scalar_value(tok),
        JsonTree::Array(items) => SpecValue::Array(items_values(items, 0)),
        JsonTree::Object(ms) => SpecValue::Object(
            members_map(ms, 0, Map::<Seq<char>, SpecValue>::empty()),
        ),
    }
}

/// The values of the items from `i` on.
pub open spec fn items_values(items: Seq<JsonTree>, i: int) -> Seq<SpecValue>
    decreases items, items.len() - i,
{
    if i < 0 || i >= items.len() {
        Seq::<SpecValue>::empty()
    } else {
        seq![denote(items[i])] + items_values(items, i + 1)
    }
}

/// The map `acc` with the members from `i` on put in, in order.
pub open spec fn members_map(
    ms: Seq<(Seq<char>, JsonTree)>,
    i: int,
    acc: Map<Seq<char>, SpecValue>,
) -> Map<Seq<char>, SpecValue>
    decreases ms, ms.len() - i,
{
    if i < 0 || i >= ms.len() {
        acc
    } else {
        members_map(ms, i + 1, acc.insert(ms[i].0, denote(ms[i].1)))
    }
}

/// The tokens `s` stand in `toks` from `pos` on.
pub open spec fn tokens_at(toks: Seq<SpecToken>, pos: int, s: Seq<SpecToken>) -> bool {
    &&& 0 <= pos
    &&& pos + s.len() <= toks.len()
    &&& toks.subrange(pos, pos + s.len()) == s
}

proof fn lemma_tokens_index(toks: Seq<SpecToken>, pos: int, s: Seq<SpecToken>, m: int)
    requires
        tokens_at(toks, pos, s),
        0 <= m < s.len(),
    ensures
        toks[pos + m] == s[m],
{
    assert(toks.subrange(pos, pos + s.len())[m] == toks[pos + m]);
}

proof fn lemma_tokens_split(toks: Seq<SpecToken>, pos: int, a: Seq<SpecToken>, b: Seq<SpecToken>)
    requires
        tokens_at(toks, pos, a + b),
    ensures
        tokens_at(toks, pos, a),
        tokens_at(toks, pos + a.len(), b),
{
    assert forall|m: int| 0 <= m < a.len() implies #[trigger] toks.subrange(pos, pos + a.len())[m]
        == a[m] by {
        lemma_tokens_index(toks, pos, a + b, m);
    }
    assert(toks.subrange(pos, pos + a.len()) =~= a);
    assert forall|m: int| 0 <= m < b.len() implies #[trigger] toks.subrange(
        pos + a.len(),
        pos + a.len() + b.len(),
    )[m] == b[m] by {
        lemma_tokens_index(toks, pos, a + b, a.len() + m);
    }
    assert(toks.subrange(pos + a.len(), pos + a.len() + b.len()) =~= b);
}

/// The first token of a written value opens it: never a closing bracket or
/// brace, a comma or a colon.
proof fn lemma_tree_first(t: JsonTree)
    requires
        tree_wf(t),
    ensures
        tree_tokens(t).len() > 0,
        !(tree_tokens(t)[0] is RightBracket),
        !(tree_tokens(t)[0] is RightBrace),
{
}

#[verifier::rlimit(40)]
proof fn lemma_tree_parse(toks: Seq<SpecToken>, pos: int, t: JsonTree)
    requires
        tree_wf(t),
        tokens_at(toks, pos, tree_tokens(t)),
    ensures
        parse_value_at(toks, pos) == (Ok::<SpecValue, SpecError>(denote(t)), pos
            + tree_tokens(t).len()),
    decreases t, 0int,
{
    lemma_tokens_index(toks, pos, tree_tokens(t), 0);
    match t {
        JsonTree::Scalar(tok) => {},
        JsonTree::Array(items) => {
            let inner = items_tokens(items, 0);
            assert(tree_tokens(t) =~= seq![SpecToken::LeftBracket] + (inner + seq![
                SpecToken::RightBracket,
            ]));
            lemma_tokens_split(toks, pos, seq![SpecToken::LeftBracket], inner + seq![SpecToken::RightBracket]);
            if items.len() == 0 {
                lemma_tokens_index(toks, pos + 1, inner + seq![SpecToken::RightBracket], 0);
                assert(items_values(items, 0) =~= Seq::<SpecValue>::empty());
            } else {
                lemma_tree_first(items[0]);
                if items.len() > 1 {
                    assert(inner =~= tree_tokens(items[0]) + (seq![SpecToken::Comma] + items_tokens(items, 1)));
                }
                lemma_tokens_index(toks, pos + 1, inner + seq![SpecToken::RightBracket], 0);
                lemma_items(toks, pos + 1, items, 0, Seq::<SpecValue>::empty());
                assert(Seq::<SpecValue>::empty() + items_values(items, 0) =~= items_values(items, 0));
            }
        },
        JsonTree::Object(ms) => {
            let inner = members_tokens(ms, 0);
            assert(tree_tokens(t) =~= seq![SpecToken::LeftBrace] + (inner + seq![
                SpecToken::RightBrace,
            ]));
            lemma_tokens_split(toks, pos, seq![SpecToken::LeftBrace], inner + seq![SpecToken::RightBrace]);
            lemma_tokens_index(toks, pos + 1, inner + seq![SpecToken::RightBrace], 0);
            if ms.len() > 0 {
                lemma_members(toks, pos + 1, ms, 0, Map::<Seq<char>, SpecValue>::empty());
            }
        },
    }
}

#[verifier::rlimit(40)]
proof fn lemma_items(toks: Seq<SpecToken>, pos: int, items: Seq<JsonTree>, i: int, acc: Seq<SpecValue>)
    requires
        0 <= i < items.len(),
        items_wf(items, i),
        tokens_at(toks, pos, items_tokens(items, i) + seq![SpecToken::RightBracket]),
    ensures
        array_elements(toks, pos, acc) == (Ok::<SpecValue, SpecError>(
            SpecValue::Array(acc + items_values(items, i)),
        ), pos + items_tokens(items, i).len() + 1),
    decreases items, items.len() - i,
{
    let s = tree_tokens(items[i]);
    let n = s.len() as int;
    assert(items_values(items, i) == seq![denote(items[i])] + items_values(items, i + 1));
    if i == items.len() - 1 {
        lemma_tokens_split(toks, pos, s, seq![SpecToken::RightBracket]);
        lemma_tokens_index(toks, pos + n, seq![SpecToken::RightBracket], 0);
        lemma_tree_parse(toks, pos, items[i]);
        assert(items_values(items, i + 1) =~= Seq::<SpecValue>::empty());
        assert(acc + items_values(items, i) =~= acc.push(denote(items[i])));
    } else {
        let rest = items_tokens(items, i + 1);
        assert(items_tokens(items, i) + seq![SpecToken::RightBracket] =~= s + (seq![SpecToken::Comma]
            + (rest + seq![SpecToken::RightBracket])));
        lemma_tokens_split(toks, pos, s, seq![SpecToken::Comma] + (rest + seq![SpecToken::RightBracket]));
        lemma_tokens_split(toks, pos + n, seq![SpecToken::Comma], rest + seq![SpecToken::RightBracket]);
        lemma_tokens_index(toks, pos + n, seq![SpecToken::Comma], 0);
        assert(items_wf(items, i + 1));
        assert(tree_wf(items[i + 1]));
        lemma_tree_first(items[i + 1]);
        if i + 1 < items.len() - 1 {
            assert(rest =~= tree_tokens(items[i + 1]) + (seq![SpecToken::Comma] + items_tokens(items, i + 2)));
        }
        lemma_tokens_index(toks, pos + n + 1, rest + seq![SpecToken::RightBracket], 0);
        lemma_tree_parse(toks, pos, items[i]);
        lemma_items(toks, pos + n + 1, items, i + 1, acc.push(denote(items[i])));
        assert(acc.push(denote(items[i])) + items_values(items, i + 1) =~= acc + items_values(items, i));
    }
}

#[verifier::rlimit(40)]
proof fn lemma_members(
    toks: Seq<SpecToken>,
    pos: int,
    ms: Seq<(Seq<char>, JsonTree)>,
    i: int,
    acc: Map<Seq<char>, SpecValue>,
)
    requires
        0 <= i < ms.len(),
        members_wf(ms, i),
        tokens_at(toks, pos, members_tokens(ms, i) + seq![SpecToken::RightBrace]),
    ensures
        object_members(toks, pos, acc) == (Ok::<SpecValue, SpecError>(
            SpecValue::Object(members_map(ms, i, acc)),
        ), pos + members_tokens(ms, i).len() + 1),
    decreases ms, ms.len() - i,
{
    let k = ms[i].0;
    let v = ms[i].1;
    let s = tree_tokens(v);
    let n = s.len() as int;
    let head = seq![SpecToken::String(k), SpecToken::Colon];
    assert(member_tokens(ms, i) == head + s);
    let acc2 = acc.insert(k, denote(v));
    if i == ms.len() - 1 {
        assert(members_tokens(ms, i) + seq![SpecToken::RightBrace] =~= head + (s + seq![
            SpecToken::RightBrace,
        ]));
        lemma_tokens_split(toks, pos, head, s + seq![SpecToken::RightBrace]);
        lemma_tokens_split(toks, pos + 2, s, seq![SpecToken::RightBrace]);
        lemma_tokens_index(toks, pos, head, 0);
        lemma_tokens_index(toks, pos, head, 1);
        lemma_tokens_index(toks, pos + 2 + n, seq![SpecToken::RightBrace], 0);
        lemma_tree_parse(toks, pos + 2, v);
        assert(members_map(ms, i + 1, acc2) == acc2);
    } else {
        let rest = members_tokens(ms, i + 1);
        assert(members_tokens(ms, i) + seq![SpecToken::RightBrace] =~= head + (s + (seq![
            SpecToken::Comma,
        ] + (rest + seq![SpecToken::RightBrace]))));
        lemma_tokens_split(toks, pos, head, s + (seq![SpecToken::Comma] + (rest + seq![SpecToken::RightBrace])));
        lemma_tokens_split(toks, pos + 2, s, seq![SpecToken::Comma] + (rest + seq![SpecToken::RightBrace]));
        lemma_tokens_split(toks, pos + 2 + n, seq![SpecToken::Comma], rest + seq![SpecToken::RightBrace]);
        lemma_tokens_index(toks, pos, head, 0);
        lemma_tokens_index(toks, pos, head, 1);
        lemma_tokens_index(toks, pos + 2 + n, seq![SpecToken::Comma], 0);
        if i + 1 < ms.len() - 1 {
            assert(rest =~= member_tokens(ms, i + 1) + (seq![SpecToken::Comma] + members_tokens(ms, i + 2)));
        }
        lemma_tokens_index(toks, pos + 3 + n, rest + seq![SpecToken::RightBrace], 0);
        lemma_tree_parse(toks, pos + 2, v);
        lemma_members(toks, pos + 3 + n, ms, i + 1, acc2);
    }
}

/// Law: a value written out in tokens, nested arrays and objects included,
/// parses to the value that it denotes and takes all its tokens; so
/// `parse_json` of its text gives that value.
pub proof fn law_written_value_parses(t: JsonTree)
    requires
        tree_wf(t),
    ensures
        parse_value_at(tree_tokens(t), 0) == (Ok::<SpecValue, SpecError>(denote(t)), tree_tokens(
            t,
        ).len() as int),
        parse_all(tree_tokens(t), 0) == Ok::<SpecValue, SpecError>(denote(t)),
{
    let toks = tree_tokens(t);
    assert(toks.subrange(0, toks.len() as int) =~= toks);
    lemma_tree_parse(toks, 0, t);
}

/// Tokens at `pos` and tokens right after them stand together.
proof fn lemma_tokens_join(toks: Seq<SpecToken>, pos: int, a: Seq<SpecToken>, b: Seq<SpecToken>)
    requires
        tokens_at(toks, pos, a),
        tokens_at(toks, pos + a.len(), b),
    ensures
        tokens_at(toks, pos, a + b),
{
    assert forall|m: int| 0 <= m < a.len() + b.len() implies #[trigger] toks.subrange(
        pos,
        pos + a.len() + b.len(),
    )[m] == (a + b)[m] by {
        if m < a.len() {
            lemma_tokens_index(toks, pos, a, m);
        } else {
            lemma_tokens_index(toks, pos + a.len(), b, m - a.len());
        }
    }
    assert(toks.subrange(pos, pos + a.len() + b.len()) =~= a + b);
}

/// One token, standing at `pos`.
proof fn lemma_token_at(toks: Seq<SpecToken>, pos: int)
    requires
        0 <= pos < toks.len(),
    ensures
        tokens_at(toks, pos, seq![toks[pos]]),
{
    assert(toks.subrange(pos, pos + 1) =~= seq![toks[pos]]);
}

/// Items after one more item in front: the indices move by one.
proof fn lemma_items_cons(t: JsonTree, rest: Seq<JsonTree>, i: int)
    requires
        0 <= i,
    ensures
        items_tokens(seq![t] + rest, i + 1) == items_tokens(rest, i),
        items_values(seq![t] + rest, i + 1) == items_values(rest, i),
        items_wf(seq![t] + rest, i + 1) == items_wf(rest, i),
    decreases rest.len() - i,
{
    let s = seq![t] + rest;
    if i < rest.len() {
        assert(s[i + 1] == rest[i]);
        lemma_items_cons(t, rest, i + 1);
    }
}

/// Members after one more member in front: the indices move by one.
proof fn lemma_members_cons(
    m: (Seq<char>, JsonTree),
    rest: Seq<(Seq<char>, JsonTree)>,
    i: int,
    acc: Map<Seq<char>, SpecValue>,
)
    requires
        0 <= i,
    ensures
        members_tokens(seq![m] + rest, i + 1) == members_tokens(rest, i),
        members_wf(seq![m] + rest, i + 1) == members_wf(rest, i),
        members_map(seq![m] + rest, i + 1, acc) == members_map(rest, i, acc),
    decreases rest.len() - i,
{
    let s = seq![m] + rest;
    if i < rest.len() {
        assert(s[i + 1] == rest[i]);
        assert(member_tokens(s, i + 1) == member_tokens(rest, i));
        lemma_members_cons(m, rest, i + 1, acc.insert(rest[i].0, denote(rest[i].1)));
        lemma_members_cons(m, rest, i + 1, acc);
    }
}

/// The written value that a successful parse at `pos` has read.
#[verifier::rlimit(40)]
proof fn lemma_parsed_tree(toks: Seq<SpecToken>, pos: int) -> (t: JsonTree)
    requires
        0 <= pos,
        parse_value_at(toks, pos).0 is Ok,
    ensures
        tree_wf(t),
        tokens_at(toks, pos, tree_tokens(t)),
        parse_value_at(toks, pos) == (Ok::<SpecValue, SpecError>(denote(t)), pos + tree_tokens(
            t,
        ).len()),
    decreases toks.len() - pos, 2int,
{
    lemma_token_at(toks, pos);
    match toks[pos] {
        SpecToken::LeftBracket => {
            if check_at(toks, pos + 1, SpecToken::RightBracket) {
                let t = JsonTree::Array(Seq::<JsonTree>::empty());
                lemma_token_at(toks, pos + 1);
                lemma_tokens_join(toks, pos, seq![toks[pos]], seq![toks[pos + 1]]);
                assert(seq![toks[pos]] + seq![toks[pos + 1]] =~= tree_tokens(t));
                assert(items_values(Seq::<JsonTree>::empty(), 0) =~= Seq::<SpecValue>::empty());
                t
            } else {
                let items = lemma_parsed_items(toks, pos + 1, Seq::<SpecValue>::empty());
                let t = JsonTree::Array(items);
                let inner = items_tokens(items, 0);
                lemma_tokens_join(toks, pos, seq![toks[pos]], inner + seq![SpecToken::RightBracket]);
                assert(seq![toks[pos]] + (inner + seq![SpecToken::RightBracket]) =~= tree_tokens(t));
                assert(Seq::<SpecValue>::empty() + items_values(items, 0) =~= items_values(items, 0));
                t
            }
        },
        SpecToken::LeftBrace => {
            if check_at(toks, pos + 1, SpecToken::RightBrace) {
                let t = JsonTree::Object(Seq::<(Seq<char>, JsonTree)>::empty());
                lemma_token_at(toks, pos + 1);
                lemma_tokens_join(toks, pos, seq![toks[pos]], seq![toks[pos + 1]]);
                assert(seq![toks[pos]] + seq![toks[pos + 1]] =~= tree_tokens(t));
                t
            } else {
                let ms = lemma_parsed_members(
                    toks,
                    pos + 1,
                    Map::<Seq<char>, SpecValue>::empty(),
                );
                let t = JsonTree::Object(ms);
                let inner = members_tokens(ms, 0);
                lemma_tokens_join(toks, pos, seq![toks[pos]], inner + seq![SpecToken::RightBrace]);
                assert(seq![toks[pos]] + (inner + seq![SpecToken::RightBrace]) =~= tree_tokens(t));
                t
            }
        },
        tok => {
            let t = JsonTree::Scalar(tok);
            assert(tree_tokens(t) =~= seq![toks[pos]]);
            t
        },
    }
}

/// The items that a successful reading of array elements at `pos` has
/// read, up to and with the closing bracket.
#[verifier::rlimit(60)]
proof fn lemma_parsed_items(toks: Seq<SpecToken>, pos: int, acc: Seq<SpecValue>) -> (items: Seq<
    JsonTree,
>)
    requires
        0 <= pos,
        array_elements(toks, pos, acc).0 is Ok,
    ensures
        items.len() > 0,
        items_wf(items, 0),
        tokens_at(toks, pos, items_tokens(items, 0) + seq![SpecToken::RightBracket]),
        array_elements(toks, pos, acc) == (Ok::<SpecValue, SpecError>(
            SpecValue::Array(acc + items_values(items, 0)),
        ), pos + items_tokens(items, 0).len() + 1),
    decreases toks.len() - pos, 3int,
{
    let t = lemma_parsed_tree(toks, pos);
    let v = denote(t);
    let tt = tree_tokens(t);
    let p1 = pos + tt.len();
    lemma_token_at(toks, p1);
    if check_at(toks, p1, SpecToken::Comma) {
        let rest = lemma_parsed_items(toks, p1 + 1, acc.push(v));
        let items = seq![t] + rest;
        lemma_items_cons(t, rest, 0);
        assert(items[0] == t);
        let rt = items_tokens(rest, 0);
        assert(items_tokens(items, 0) == tt + seq![SpecToken::Comma] + rt);
        assert(items_values(items, 0) == seq![v] + items_values(rest, 0));
        assert(seq![toks[p1]] == seq![SpecToken::Comma]);
        lemma_tokens_join(toks, p1, seq![SpecToken::Comma], rt + seq![SpecToken::RightBracket]);
        lemma_tokens_join(toks, pos, tt, seq![SpecToken::Comma] + (rt + seq![SpecToken::RightBracket]));
        assert(tt + (seq![SpecToken::Comma] + (rt + seq![SpecToken::RightBracket])) =~= items_tokens(
            items,
            0,
        ) + seq![SpecToken::RightBracket]);
        assert(acc.push(v) + items_values(rest, 0) =~= acc + items_values(items, 0));
        items
    } else {
        let items = seq![t];
        assert(items_tokens(items, 0) == tt);
        assert(items_values(items, 1) =~= Seq::<SpecValue>::empty());
        assert(items_values(items, 0) =~= seq![v]);
        assert(items_wf(items, 1));
        assert(seq![toks[p1]] == seq![SpecToken::RightBracket]);
        lemma_tokens_join(toks, pos, tt, seq![SpecToken::RightBracket]);
        assert(acc.push(v) =~= acc + items_values(items, 0));
        items
    }
}

/// The members that a successful reading of object members at `pos` has
/// read, up to and with the closing brace.
#[verifier::rlimit(60)]
proof fn lemma_parsed_members(toks: Seq<SpecToken>, pos: int, acc: Map<Seq<char>, SpecValue>) -> (ms:
    Seq<(Seq<char>, JsonTree)>)
    requires
        0 <= pos,
        object_members(toks, pos, acc).0 is Ok,
    ensures
        ms.len() > 0,
        members_wf(ms, 0),
        tokens_at(toks, pos, members_tokens(ms, 0) + seq![SpecToken::RightBrace]),
        object_members(toks, pos, acc) == (Ok::<SpecValue, SpecError>(
            SpecValue::Object(members_map(ms, 0, acc)),
        ), pos + members_tokens(ms, 0).len() + 1),
    decreases toks.len() - pos, 3int,
{
    let k = toks[pos]->String_0;
    let t = lemma_parsed_tree(toks, pos + 2);
    let v = denote(t);
    let tt = tree_tokens(t);
    let p3 = pos + 2 + tt.len();
    let m = (k, t);
    let head = seq![SpecToken::String(k), SpecToken::Colon];
    lemma_token_at(toks, pos);
    lemma_token_at(toks, pos + 1);
    assert(seq![toks[pos + 1]] == seq![SpecToken::Colon]);
    lemma_tokens_join(toks, pos, seq![toks[pos]], seq![toks[pos + 1]]);
    assert(seq![toks[pos]] + seq![toks[pos + 1]] =~= head);
    lemma_tokens_join(toks, pos, head, tt);
    lemma_token_at(toks, p3);
    let acc2 = acc.insert(k, v);
    if toks[p3] is Comma {
        let rest = lemma_parsed_members(toks, p3 + 1, acc2);
        let ms = seq![m] + rest;
        lemma_members_cons(m, rest, 0, acc2);
        assert(ms[0] == m);
        let rt = members_tokens(rest, 0);
        assert(member_tokens(ms, 0) == head + tt);
        assert(members_tokens(ms, 0) == member_tokens(ms, 0) + seq![SpecToken::Comma] + rt);
        assert(seq![toks[p3]] == seq![SpecToken::Comma]);
        lemma_tokens_join(toks, p3, seq![SpecToken::Comma], rt + seq![SpecToken::RightBrace]);
        lemma_tokens_join(toks, pos, head + tt, seq![SpecToken::Comma] + (rt + seq![SpecToken::RightBrace]));
        assert((head + tt) + (seq![SpecToken::Comma] + (rt + seq![SpecToken::RightBrace]))
            =~= members_tokens(ms, 0) + seq![SpecToken::RightBrace]);
        assert(members_map(ms, 0, acc) == members_map(ms, 1, acc2));
        ms
    } else {
        let ms = seq![m];
        assert(member_tokens(ms, 0) == head + tt);
        assert(members_tokens(ms, 0) == head + tt);
        assert(members_wf(ms, 1));
        assert(members_map(ms, 0, acc) == members_map(ms, 1, acc2));
        assert(seq![toks[p3]] == seq![SpecToken::RightBrace]);
        lemma_tokens_join(toks, pos, head + tt, seq![SpecToken::RightBrace]);
        ms
    }
}

/// Law: a parse that succeeds has read a written value: the tokens from
/// `pos` up to where the parse ends are exactly the tokens of a well-formed
/// value (arrays closed by `]`, objects by `}`, items and members separated
/// by commas), and the value that the parse gives is the one those tokens
/// denote. With `law_written_value_parses`, the parse succeeds exactly on
/// the tokens of written values.
pub proof fn law_parse_reads_written_value(toks: Seq<SpecToken>, pos: int)
    requires
        0 <= pos,
        parse_value_at(toks, pos).0 is Ok,
    ensures
        exists|t: JsonTree|
            #![trigger tree_tokens(t)]
            tree_wf(t) && tokens_at(toks, pos, tree_tokens(t)) && parse_value_at(toks, pos) == (
                Ok::<SpecValue, SpecError>(denote(t)),
                pos + tree_tokens(t).len(),
            ),
{
    let t = lemma_parsed_tree(toks, pos);
    assert(tree_wf(t) && tokens_at(toks, pos, tree_tokens(t)));
}

// ---------------------------------------------------------------------------
// A value is read from its own tokens alone.

proof fn lemma_extend_value(toks: Seq<SpecToken>, ext: Seq<SpecToken>, pos: int)
    requires
        0 <= pos,
        parse_value_at(toks, pos).0 is Ok,
    ensures
        parse_value_at(toks + ext, pos) == parse_value_at(toks, pos),
    decreases toks.len() - pos, 2int,
{
    assert((toks + ext)[pos] == toks[pos]);
    match toks[pos] {
        SpecToken::LeftBracket => lemma_extend_array(toks, ext, pos),
        SpecToken::LeftBrace => lemma_extend_object(toks, ext, pos),
        _ => {},
    }
}

proof fn lemma_extend_array(toks: Seq<SpecToken>, ext: Seq<SpecToken>, pos: int)
    requires
        0 <= pos < toks.len(),
        parse_array_at(toks, pos).0 is Ok,
    ensures
        parse_array_at(toks + ext, pos) == parse_array_at(toks, pos),
    decreases toks.len() - pos, 1int,
{
    let all = toks + ext;
    if check_at(toks, pos + 1, SpecToken::RightBracket) {
        assert(all[pos + 1] == toks[pos + 1]);
    } else {
        lemma_extend_elements(toks, ext, pos + 1, Seq::<SpecValue>::empty());
        lemma_parse_value(toks, pos + 1);
        assert(all[pos + 1] == toks[pos + 1]);
    }
}

proof fn lemma_extend_elements(toks: Seq<SpecToken>, ext: Seq<SpecToken>, pos: int, acc: Seq<SpecValue>)
    requires
        0 <= pos <= toks.len(),
        array_elements(toks, pos, acc).0 is Ok,
    ensures
        array_elements(toks + ext, pos, acc) == array_elements(toks, pos, acc),
    decreases toks.len() - pos, 3int,
{
    let all = toks + ext;
    lemma_extend_value(toks, ext, pos);
    lemma_parse_value(toks, pos);
    let (r, p1) = parse_value_at(toks, pos);
    let v = r->Ok_0;
    assert(all[p1] == toks[p1]);
    if check_at(toks, p1, SpecToken::Comma) {
        let p2 = p1 + 1;
        lemma_parse_value(toks, p2);
        lemma_extend_elements(toks, ext, p2, acc.push(v));
        assert(all[p2] == toks[p2]);
    }
}

proof fn lemma_extend_object(toks: Seq<SpecToken>, ext: Seq<SpecToken>, pos: int)
    requires
        0 <= pos < toks.len(),
        parse_object_at(toks, pos).0 is Ok,
    ensures
        parse_object_at(toks + ext, pos) == parse_object_at(toks, pos),
    decreases toks.len() - pos, 1int,
{
    let all = toks + ext;
    if check_at(toks, pos + 1, SpecToken::RightBrace) {
        assert(all[pos + 1] == toks[pos + 1]);
    } else {
        lemma_extend_members(toks, ext, pos + 1, Map::<Seq<char>, SpecValue>::empty());
        assert(all[pos + 1] == toks[pos + 1]);
    }
}

proof fn lemma_extend_members(
    toks: Seq<SpecToken>,
    ext: Seq<SpecToken>,
    pos: int,
    acc: Map<Seq<char>, SpecValue>,
)
    requires
        0 <= pos <= toks.len(),
        object_members(toks, pos, acc).0 is Ok,
    ensures
        object_members(toks + ext, pos, acc) == object_members(toks, pos, acc),
    decreases toks.len() - pos, 3int,
{
    let all = toks + ext;
    assert(all[pos] == toks[pos]);
    let k = toks[pos]->String_0;
    let p1 = pos + 1;
    assert(all[p1] == toks[p1]);
    lemma_extend_value(toks, ext, p1 + 1);
    lemma_parse_value(toks, p1 + 1);
    let (r, p3) = parse_value_at(toks, p1 + 1);
    let v = r->Ok_0;
    assert(all[p3] == toks[p3]);
    if toks[p3] is Comma {
        let p4 = p3 + 1;
        lemma_extend_members(toks, ext, p4, acc.insert(k, v));
        assert(all[p4] == toks[p4]);
    }
}

/// Law: a value is read from its own tokens alone: tokens that follow a
/// value that parses change neither the value nor where its parse ends.
pub proof fn law_parse_ignores_following_tokens(toks: Seq<SpecToken>, ext: Seq<SpecToken>, pos: int)
    requires
        0 <= pos,
        parse_value_at(toks, pos).0 is Ok,
    ensures
        parse_value_at(toks + ext, pos) == parse_value_at(toks, pos),
{
    lemma_extend_value(toks, ext, pos);
}

// ---------------------------------------------------------------------------
// The parser.

/// The two parsers read the same tokens of the same text (their positions
/// aside).
pub open spec fn same_source(a: JsonParser, b: JsonParser) -> bool {
    &&& a.spec_tokens() == b.spec_tokens()
    &&& a.spec_starts() == b.spec_starts()
    &&& a.spec_texts() == b.spec_texts()
    &&& a.spec_end() == b.spec_end()
}

/// Parses the tokens of a JSON text into a value.
pub struct JsonParser {
    tokens: Vec<Token>,
    starts: Vec<usize>,
    texts: Vec<String>,
    end: usize,
    position: usize,
}

impl JsonParser {
    /// The position never passes the end of the tokens, and each token has
    /// its start and its text.
    #[verifier::type_invariant]
    closed spec fn wf(self) -> bool {
        &&& self.position <= self.tokens.len()
        &&& self.starts.len() == self.tokens.len()
        &&& self.texts.len() == self.tokens.len()
    }

    /// The tokens being parsed.
    pub closed spec fn spec_tokens(&self) -> Seq<SpecToken> {
        tokens_view(self.tokens@)
    }

    /// The byte offset where each token starts in the input.
    pub closed spec fn spec_starts(&self) -> Seq<int> {
        self.starts@.map_values(|x: usize| x as int)
    }

    /// The text of each token, as it stands in the input.
    pub closed spec fn spec_texts(&self) -> Seq<Seq<char>> {
        self.texts@.map_values(|t: String| t@)
    }

    /// The byte length of the input.
    pub closed spec fn spec_end(&self) -> int {
        self.end as int
    }

    /// The position of the next token to read.
    pub closed spec fn spec_position(&self) -> int {
        self.position as int
    }

    /// What this parser reports of a parse outcome.
    pub open spec fn reported(&self, r: Result<SpecValue, SpecError>) -> Result<SpecValue, SpecError> {
        relocated(r, self.spec_starts(), self.spec_texts(), self.spec_end())
    }

    /// A parser over the tokens of `input`, or the error of tokenizing it.
    pub fn new(input: &str) -> (r: Result<JsonParser, JsonError>)
        ensures
            match spec_tokenize(input@) {
                Ok(toks) => r matches Ok(p) && p.spec_tokens() == toks && p.spec_position() == 0
                    && p.spec_starts() == token_starts(input@) && p.spec_texts() == token_texts(
                    input@,
                ) && p.spec_end() == byte_len(input@),
                Err(e) => r matches Err(x) && x@ == error_in_bytes(e, input@),
            },
    {
        let end = byte_len_fits(input);
        let mut tokenizer = Tokenizer::new(input);
        match tokenizer.tokenize_with_spans() {
            Ok((tokens, starts, texts)) => {
                let p = JsonParser { tokens, starts, texts, end, position: 0 };
                proof {
                    assert(p.spec_starts() =~= token_starts(input@));
                    assert forall|i: int| 0 <= i < p.texts@.len() implies p.spec_texts()[i]
                        == token_texts(input@)[i] by {
                        assert(p.starts@[i] == byte_offset(input@, spec_token_spans(input@)[i].0));
                    }
                    assert(p.spec_texts() =~= token_texts(input@));
                }
                Ok(p)
            },
            Err(e) => Err(e),
        }
    }

    fn is_at_end(&self) -> (r: bool)
        ensures
            r == (self.spec_position() >= self.spec_tokens().len()),
    {
        self.position >= self.tokens.len()
    }

    /// The next token, moving past it.
    fn advance(&mut self) -> (r: Option<Token>)
        ensures
            same_source(*final(self), *old(self)),
            match r {
                Some(t) => old(self).spec_position() < old(self).spec_tokens().len()
                    && t@ == old(self).spec_tokens()[old(self).spec_position()]
                    && final(self).spec_position() == old(self).spec_position() + 1,
                None => old(self).spec_position() >= old(self).spec_tokens().len()
                    && final(self).spec_position() == old(self).spec_position(),
            },
    {
        proof {
            use_type_invariant(&*self);
        }
        if self.position >= self.tokens.len() {
            None
        } else {
            let token = self.tokens[self.position].duplicate();
            self.position = self.position + 1;
            Some(token)
        }
    }

    /// The next token is of the kind of `expected`.
    fn check(&self, expected: &Token) -> (r: bool)
        ensures
            r == check_at(self.spec_tokens(), self.spec_position(), expected@),
    {
        if self.position >= self.tokens.len() {
            return false;
        }
        match (&self.tokens[self.position], expected) {
            (Token::LeftBrace, Token::LeftBrace) => true,
            (Token::RightBrace, Token::RightBrace) => true,
            (Token::LeftBracket, Token::LeftBracket) => true,
            (Token::RightBracket, Token::RightBracket) => true,
            (Token::Comma, Token::Comma) => true,
            (Token::Colon, Token::Colon) => true,
            (Token::String(_), Token::String(_)) => true,
            (Token::Number(_), Token::Number(_)) => true,
            (Token::Boolean(_), Token::Boolean(_)) => true,
            (Token::Null, Token::Null) => true,
            _ => false,
        }
    }

    /// An `UnexpectedToken` error at the token at `index`, named by its
    /// text.
    fn unexpected_at(&self, expected: &str, index: usize) -> (r: JsonError)
        requires
            index < self.spec_tokens().len(),
        ensures
            r@ == (SpecError::UnexpectedToken {
                expected: expected@,
                found: self.spec_texts()[index as int],
                position: self.spec_starts()[index as int],
            }),
    {
        proof {
            use_type_invariant(self);
        }
        let mut e = String::new();
        push_text(&mut e, expected);
        JsonError::UnexpectedToken {
            expected: e,
            found: self.texts[index].clone(),
            position: self.starts[index],
        }
    }

    /// An `UnexpectedEndOfInput` error at the end of the input.
    fn end_of_input(&self, expected: &str) -> (r: JsonError)
        ensures
            r@ == (SpecError::UnexpectedEndOfInput { expected: expected@, position: self.spec_end() }),
    {
        let mut e = String::new();
        push_text(&mut e, expected);
        JsonError::UnexpectedEndOfInput { expected: e, position: self.end }
    }

    fn parse_value(&mut self) -> (r: Result<JsonValue, JsonError>)
        requires
            old(self).spec_position() <= old(self).spec_tokens().len(),
        ensures
            same_source(*final(self), *old(self)),
            ({
                let (sr, sp) = parse_value_at(old(self).spec_tokens(), old(self).spec_position());
                &&& final(self).spec_position() == sp
                &&& value_result_view(r) == old(self).reported(sr)
            }),
        decreases old(self).spec_tokens().len() - old(self).spec_position(), 2int,
    {
        proof {
            use_type_invariant(&*self);
        }
        if self.position >= self.tokens.len() {
            return Err(self.end_of_input("JSON value"));
        }
        match &self.tokens[self.position] {
            Token::LeftBracket => self.parse_array(),
            Token::LeftBrace => self.parse_object(),
            Token::String(s) => {
                let s = s.clone();
                self.position = self.position + 1;
                Ok(JsonValue::String(s))
            },
            Token::Number(n) => {
                let n = n.duplicate();
                self.position = self.position + 1;
                Ok(JsonValue::Number(n))
            },
            Token::Boolean(b) => {
                let b = *b;
                self.position = self.position + 1;
                Ok(JsonValue::Boolean(b))
            },
            Token::Null => {
                self.position = self.position + 1;
                Ok(JsonValue::Null)
            },
            _ => Err(self.unexpected_at("JSON value", self.position)),
        }
    }

    #[verifier::rlimit(40)]
    fn parse_array(&mut self) -> (r: Result<JsonValue, JsonError>)
        requires
            old(self).spec_position() < old(self).spec_tokens().len(),
        ensures
            same_source(*final(self), *old(self)),
            ({
                let (sr, sp) = parse_array_at(old(self).spec_tokens(), old(self).spec_position());
                &&& final(self).spec_position() == sp
                &&& value_result_view(r) == old(self).reported(sr)
            }),
        decreases old(self).spec_tokens().len() - old(self).spec_position(), 1int,
    {
        proof {
            use_type_invariant(&*self);
        }
        let ghost toks = self.spec_tokens();
        let ghost start = self.spec_position();
        self.advance();
        let mut elements: Vec<JsonValue> = Vec::new();
        if self.check(&Token::RightBracket) {
            self.advance();
            proof {
                assert(values_view(elements@) == Seq::<SpecValue>::empty());
            }
            return Ok(JsonValue::Array(elements));
        }
        proof {
            assert(values_view(elements@) == Seq::<SpecValue>::empty());
        }
        loop
            invariant
                self.spec_tokens() == toks,
                toks == old(self).spec_tokens(),
                same_source(*self, *old(self)),
                self.spec_starts().len() == toks.len(),
                self.spec_texts().len() == toks.len(),
                start == old(self).spec_position(),
                0 <= start < self.spec_position() <= toks.len(),
                !check_at(toks, start + 1, SpecToken::RightBracket),
                array_elements(toks, self.spec_position(), values_view(elements@))
                    == array_elements(toks, start + 1, Seq::<SpecValue>::empty()),
            decreases toks.len() - self.spec_position(),
        {
            let ghost p = self.spec_position();
            proof {
                lemma_parse_value(toks, p);
            }
            let value = match self.parse_value() {
                Ok(v) => v,
                Err(e) => return Err(e),
            };
            let ghost prev = elements@;
            elements.push(value);
            proof {
                assert(elements@.subrange(0, elements@.len() - 1) == prev);
            }
            if self.check(&Token::Comma) {
                self.advance();
                if self.check(&Token::RightBracket) {
                    return Err(self.unexpected_at("JSON value", self.position));
                }
            } else if self.check(&Token::RightBracket) {
                self.advance();
                return Ok(JsonValue::Array(elements));
            } else if self.is_at_end() {
                return Err(self.end_of_input("] or ,"));
            } else {
                return Err(self.unexpected_at("] or ,", self.position));
            }
        }
    }

    #[verifier::rlimit(40)]
    fn parse_object(&mut self) -> (r: Result<JsonValue, JsonError>)
        requires
            old(self).spec_position() < old(self).spec_tokens().len(),
        ensures
            same_source(*final(self), *old(self)),
            ({
                let (sr, sp) = parse_object_at(old(self).spec_tokens(), old(self).spec_position());
                &&& final(self).spec_position() == sp
                &&& value_result_view(r) == old(self).reported(sr)
            }),
        decreases old(self).spec_tokens().len() - old(self).spec_position(), 1int,
    {
        proof {
            use_type_invariant(&*self);
        }
        let ghost toks = self.spec_tokens();
        let ghost start = self.spec_position();
        self.advance();
        let mut map = JsonObject::new();
        if self.check(&Token::RightBrace) {
            self.advance();
            return Ok(JsonValue::Object(map));
        }
        loop
            invariant
                self.spec_tokens() == toks,
                toks == old(self).spec_tokens(),
                same_source(*self, *old(self)),
                self.spec_starts().len() == toks.len(),
                self.spec_texts().len() == toks.len(),
                start == old(self).spec_position(),
                0 <= start < self.spec_position() <= toks.len(),
                !check_at(toks, start + 1, SpecToken::RightBrace),
                object_members(toks, self.spec_position(), map@) == object_members(
                    toks,
                    start + 1,
                    Map::<Seq<char>, SpecValue>::empty(),
                ),
            decreases toks.len() - self.spec_position(),
        {
            let ghost p = self.spec_position();
            let key = match self.advance() {
                Some(Token::String(s)) => s,
                Some(_) => {
                    return Err(self.unexpected_at("string key", self.position - 1));
                },
                None => {
                    return Err(self.end_of_input("string key"));
                },
            };
            match self.advance() {
                Some(Token::Colon) => {},
                Some(_) => {
                    return Err(self.unexpected_at(":", self.position - 1));
                },
                None => {
                    return Err(self.end_of_input(":"));
                },
            }
            proof {
                lemma_parse_value(toks, p + 2);
            }
            let value = match self.parse_value() {
                Ok(v) => v,
                Err(e) => return Err(e),
            };
            map.insert(key, value);
            match self.advance() {
                Some(Token::RightBrace) => {
                    return Ok(JsonValue::Object(map));
                },
                Some(Token::Comma) => {
                    if self.check(&Token::RightBrace) {
                        return Err(self.unexpected_at("string key", self.position));
                    }
                },
                Some(_) => {
                    return Err(self.unexpected_at("} or ,", self.position - 1));
                },
                None => {
                    return Err(self.end_of_input("} or ,"));
                },
            }
        }
    }

    /// Parses the text: the value that starts at the current token, which
    /// must take all the tokens that are left.
    pub fn parse(&mut self) -> (r: Result<JsonValue, JsonError>)
        ensures
            same_source(*final(self), *old(self)),
            final(self).spec_position() == parse_value_at(
                old(self).spec_tokens(),
                old(self).spec_position(),
            ).1,
            value_result_view(r) == old(self).reported(
                parse_all(old(self).spec_tokens(), old(self).spec_position()),
            ),
    {
        proof {
            use_type_invariant(&*self);
        }
        let v = match self.parse_value() {
            Ok(v) => v,
            Err(e) => return Err(e),
        };
        if self.position < self.tokens.len() {
            Err(self.unexpected_at("end of input", self.position))
        } else {
            Ok(v)
        }
    }
}

/// Parses a JSON text.
pub fn parse_json(input: &str) -> (r: Result<JsonValue, JsonError>)
    ensures
        value_result_view(r) == spec_parse_json(input@),
{
    match JsonParser::new(input) {
        Ok(mut parser) => parser.parse(),
        Err(e) => Err(e),
    }
}

} // verus!
