//! Character classes and small string helpers shared by the tokenizer,
//! the parser and the error messages.

use vstd::prelude::*;

verus! {

broadcast use vstd::string::group_string_axioms;

/// An ASCII decimal digit, `'0'..='9'`.
pub open spec fn is_digit(c: char) -> bool {
    '0' <= c && c <= '9'
}

/// Every character of `s` is an ASCII decimal digit.
pub open spec fn all_digits(s: Seq<char>) -> bool {
    forall|i: int| 0 <= i < s.len() ==> is_digit(#[trigger] s[i])
}

/// The characters of `s`, in order.
pub fn chars_of(s: &str) -> (r: Vec<char>)
    ensures
        r@ == s@,
{
    let mut v: Vec<char> = Vec::new();
    for c in it: s.chars()
        invariant
            it.seq() == s@,
            v@ == it.seq().take(it.index() as int),
    {
        v.push(c);
    }
    v
}

/// `String::push`: appends one character to the end of the string.
#[verifier::external_body]
pub(crate) fn push_char(s: &mut String, c: char)
    ensures
        final(s)@ == old(s)@.push(c),
{
    s.push(c);
}

/// A string that holds the characters of `v`, in order.
pub fn string_of(v: &Vec<char>) -> (r: String)
    ensures
        r@ == v@,
{
    let mut s = String::new();
    for i in 0..v.len()
        invariant
            s@ == v@.take(i as int),
    {
        push_char(&mut s, v[i]);
        assert(v@.take(i + 1) == v@.take(i as int).push(v@[i as int]));
    }
    assert(v@.take(v.len() as int) == v@);
    s
}

/// Appends the characters of `v` to `s`.
pub fn append_chars(s: &mut String, v: &Vec<char>)
    ensures
        final(s)@ == old(s)@ + v@,
{
    let ghost s0 = s@;
    for i in 0..v.len()
        invariant
            s@ == s0 + v@.take(i as int),
    {
        push_char(s, v[i]);
        assert(v@.take(i + 1) == v@.take(i as int).push(v@[i as int]));
    }
    assert(v@.take(v.len() as int) == v@);
}

/// Appends the characters of `t` to `s`.
pub fn push_text(s: &mut String, t: &str)
    ensures
        final(s)@ == old(s)@ + t@,
{
    let v = chars_of(t);
    append_chars(s, &v);
}

/// The character of a decimal digit value below ten.
pub open spec fn digit_char(d: nat) -> char {
    (d + 48) as char
}

/// The decimal numeral of `n`, without leading zeros.
pub open spec fn decimal_text(n: nat) -> Seq<char>
    decreases n,
{
    if n < 10 {
        seq![digit_char(n)]
    } else {
        decimal_text(n / 10).push(digit_char(n % 10))
    }
}

/// Appends the decimal numeral of `n` to `s`.
pub fn push_decimal(s: &mut String, n: usize)
    ensures
        final(s)@ == old(s)@ + decimal_text(n as nat),
    decreases n,
{
    if n >= 10 {
        push_decimal(s, n / 10);
    }
    let d = (n % 10) as u8;
    let c = (d + 48) as char;
    assert(c == digit_char((n % 10) as nat));
    push_char(s, c);
}

/// Whether `c` has the Unicode `Alphabetic` property, as `char::is_alphabetic`
/// answers it (the library asks it of characters beyond ASCII only).
pub uninterp spec fn unicode_alphabetic(c: char) -> bool;

/// An ASCII letter.
pub open spec fn is_ascii_letter(c: char) -> bool {
    ('a' <= c && c <= 'z') || ('A' <= c && c <= 'Z')
}

/// Whether `c` has the Unicode `Alphabetic` property: among ASCII
/// characters, exactly the letters; beyond ASCII, as the Unicode tables of
/// std answer.
pub open spec fn char_is_alphabetic(c: char) -> bool {
    if (c as u32) < 0x80 {
        is_ascii_letter(c)
    } else {
        unicode_alphabetic(c)
    }
}

/// The Unicode `White_Space` property (PropList.txt), which
/// `char::is_whitespace` tests: tab, line feed, vertical tab, form feed,
/// carriage return, space, next line, no-break space, ogham space mark, the
/// spaces U+2000..U+200A, line and paragraph separators, narrow no-break
/// space, medium mathematical space and ideographic space.
pub open spec fn char_is_whitespace(c: char) -> bool {
    let n = c as int;
    ||| 0x09 <= n <= 0x0D
    ||| n == 0x20
    ||| n == 0x85
    ||| n == 0xA0
    ||| n == 0x1680
    ||| 0x2000 <= n <= 0x200A
    ||| n == 0x2028
    ||| n == 0x2029
    ||| n == 0x202F
    ||| n == 0x205F
    ||| n == 0x3000
}

/// `char::is_alphabetic`. The contract only names the answer: it depends on
/// `c` alone, through the Unicode tables that std carries.
#[verifier::external_body]
fn std_is_alphabetic(c: char) -> (r: bool)
    ensures
        r == unicode_alphabetic(c),
{
    c.is_alphabetic()
}

/// Whether `c` is alphabetic: an ASCII letter, or beyond ASCII, what
/// `char::is_alphabetic` answers.
pub fn is_alphabetic(c: char) -> (r: bool)
    ensures
        r == char_is_alphabetic(c),
{
    if (c as u32) < 0x80 {
        ('a' <= c && c <= 'z') || ('A' <= c && c <= 'Z')
    } else {
        std_is_alphabetic(c)
    }
}

/// Whether `c` is white space, as `char::is_whitespace` decides it.
pub fn is_whitespace(c: char) -> (r: bool)
    ensures
        r == char_is_whitespace(c),
{
    let n = c as u32;
    (0x09 <= n && n <= 0x0D) || n == 0x20 || n == 0x85 || n == 0xA0 || n == 0x1680 || (0x2000
        <= n && n <= 0x200A) || n == 0x2028 || n == 0x2029 || n == 0x202F || n == 0x205F || n
        == 0x3000
}

/// A Unicode scalar value: a code point that is not a surrogate.
pub open spec fn is_scalar(cp: int) -> bool {
    0 <= cp <= 0x10FFFF && !(0xD800 <= cp <= 0xDFFF)
}

/// `char::from_u32`: the char of a code point, `None` where the code point is
/// not a Unicode scalar value (a surrogate, or above `0x10FFFF`).
#[verifier::external_body]
pub(crate) fn char_from_u32(cp: u32) -> (r: Option<char>)
    ensures
        r is Some <==> is_scalar(cp as int),
        r matches Some(c) ==> c as int == cp as int,
{
    char::from_u32(cp)
}

// ---------------------------------------------------------------------------
// Byte offsets in the UTF-8 encoding of a text.

/// The number of bytes of `c` in UTF-8.
pub open spec fn char_width(c: char) -> nat {
    if (c as u32) <= 0x7F {
        1
    } else if (c as u32) <= 0x7FF {
        2
    } else if (c as u32) <= 0xFFFF {
        3
    } else {
        4
    }
}

/// The number of bytes of `s` in UTF-8.
pub open spec fn byte_len(s: Seq<char>) -> nat
    decreases s.len(),
{
    if s.len() == 0 {
        0
    } else {
        char_width(s[0]) + byte_len(s.drop_first())
    }
}

/// The byte offset, in the UTF-8 encoding of `s`, of the character at
/// index `i` (the byte length of `s` where `i` is its length).
pub open spec fn byte_offset(s: Seq<char>, i: int) -> nat {
    byte_len(s.take(i))
}

/// The byte length of a text is that of its UTF-8 encoding.
pub proof fn lemma_byte_len_utf8(s: Seq<char>)
    ensures
        byte_len(s) == vstd::utf8::encode_utf8(s).len(),
    decreases s.len(),
{
    if s.len() > 0 {
        lemma_byte_len_utf8(s.drop_first());
        let v = s[0] as u32;
        vstd::utf8::char_is_scalar(s[0]);
        assert(vstd::utf8::encode_scalar(v).len() == char_width(s[0]));
    }
}

/// Byte lengths add up over a concatenation.
pub proof fn lemma_byte_len_concat(a: Seq<char>, b: Seq<char>)
    ensures
        byte_len(a + b) == byte_len(a) + byte_len(b),
    decreases a.len(),
{
    if a.len() > 0 {
        assert((a + b).drop_first() =~= a.drop_first() + b);
        lemma_byte_len_concat(a.drop_first(), b);
    } else {
        assert(a + b =~= b);
    }
}

/// The offset of the next character is that of the current one plus its
/// width, and no offset passes the byte length of the text.
pub proof fn lemma_byte_offset_step(s: Seq<char>, i: int)
    requires
        0 <= i < s.len(),
    ensures
        byte_offset(s, i + 1) == byte_offset(s, i) + char_width(s[i]),
        byte_offset(s, i + 1) <= byte_len(s),
{
    assert(s.take(i + 1) =~= s.take(i) + seq![s[i]]);
    lemma_byte_len_concat(s.take(i), seq![s[i]]);
    assert(seq![s[i]].drop_first() =~= Seq::<char>::empty());
    assert(byte_len(Seq::<char>::empty()) == 0);
    assert(byte_len(seq![s[i]]) == char_width(s[i]));
    assert(s =~= s.take(i + 1) + s.skip(i + 1));
    lemma_byte_len_concat(s.take(i + 1), s.skip(i + 1));
}

/// The byte length of a text fits in `usize`.
pub fn byte_len_fits(s: &str) -> (n: usize)
    ensures
        n == byte_len(s@),
{
    proof {
        lemma_byte_len_utf8(s@);
    }
    s.as_bytes().len()
}

/// The number of bytes of `c` in UTF-8.
pub fn width_of(c: char) -> (r: usize)
    ensures
        r == char_width(c),
{
    let n = c as u32;
    if n <= 0x7F {
        1
    } else if n <= 0x7FF {
        2
    } else if n <= 0xFFFF {
        3
    } else {
        4
    }
}

/// The byte offset of the character at index `to` of `s`, from that of the
/// character at index `from`.
pub fn offset_from(s: &Vec<char>, from: usize, to: usize, offset: usize) -> (r: usize)
    requires
        from <= to <= s.len(),
        byte_len(s@) <= usize::MAX,
        offset == byte_offset(s@, from as int),
    ensures
        r == byte_offset(s@, to as int),
{
    let mut k: usize = from;
    let mut r: usize = offset;
    while k < to
        invariant
            from <= k <= to <= s.len(),
            byte_len(s@) <= usize::MAX,
            r == byte_offset(s@, k as int),
        decreases to - k,
    {
        proof {
            lemma_byte_offset_step(s@, k as int);
        }
        r = r + width_of(s[k]);
        k = k + 1;
    }
    r
}

/// The byte offset of the character at index `i` of `s`.
pub fn byte_offset_of(s: &Vec<char>, i: usize) -> (r: usize)
    requires
        i <= s.len(),
        byte_len(s@) <= usize::MAX,
    ensures
        r == byte_offset(s@, i as int),
{
    assert(s@.take(0) =~= Seq::<char>::empty());
    offset_from(s, 0, i, 0)
}

/// The characters of `s` from index `from` up to `to`, as a string.
pub fn text_between(s: &Vec<char>, from: usize, to: usize) -> (r: String)
    requires
        from <= to <= s.len(),
    ensures
        r@ == s@.subrange(from as int, to as int),
{
    let mut t = String::new();
    let mut k: usize = from;
    while k < to
        invariant
            from <= k <= to <= s.len(),
            t@ == s@.subrange(from as int, k as int),
        decreases to - k,
    {
        push_char(&mut t, s[k]);
        assert(s@.subrange(from as int, k + 1) == s@.subrange(from as int, k as int).push(s@[k as int]));
        k = k + 1;
    }
    t
}

/// Text in front of another moves every byte offset in it by its byte
/// length.
pub proof fn lemma_byte_offset_shift(w: Seq<char>, s: Seq<char>, i: int)
    requires
        0 <= i <= s.len(),
    ensures
        byte_offset(w + s, i + w.len()) == byte_len(w) + byte_offset(s, i),
        byte_len(w + s) == byte_len(w) + byte_len(s),
{
    assert((w + s).take(i + w.len()) =~= w + s.take(i));
    lemma_byte_len_concat(w, s.take(i));
    lemma_byte_len_concat(w, s);
}

/// A text has at least as many bytes as characters.
pub proof fn lemma_len_le_byte_len(s: Seq<char>)
    ensures
        s.len() <= byte_len(s),
    decreases s.len(),
{
    if s.len() > 0 {
        lemma_len_le_byte_len(s.drop_first());
    }
}

/// No character stands at a byte offset past the byte length of the text.
pub proof fn lemma_byte_offset_bound(s: Seq<char>, i: int)
    requires
        0 <= i <= s.len(),
    ensures
        byte_offset(s, i) <= byte_len(s),
    decreases s.len() - i,
{
    if i < s.len() {
        lemma_byte_offset_step(s, i);
        lemma_byte_offset_bound(s, i + 1);
    } else {
        assert(s.take(i) =~= s);
    }
}

} // verus!
