//! JSON numbers, held exactly as the decimal that their literal denotes.
//!
//! A number literal follows JSON's grammar: an optional `-`, an integer part
//! (`0`, or digits that do not start with `0`), optionally `.` and digits,
//! then optionally an exponent: `e` or `E`, an optional sign, and digits.
//! Its value is kept in canonical form (no leading zeros in the integer
//! part, no trailing zeros in the fraction; zero keeps its sign, as an `f64`
//! does), so that two numbers are equal exactly when their decimal values
//! and signs are. A value above `f64::MAX` in magnitude is out of range; a
//! non-zero value below `1e-324` in magnitude reads as a zero of its sign,
//! as `f64` rounds it.

use vstd::prelude::*;
use crate::text::{is_digit, all_digits, push_char, append_chars, decimal_text, push_decimal};

verus! {

/// The decimal value of a JSON number: sign, integer digits, fraction digits.
pub struct SpecNumber {
    pub negative: bool,
    pub integer: Seq<char>,
    pub fraction: Seq<char>,
}

/// A JSON number in canonical decimal form.
#[derive(Debug, PartialEq)]
pub struct JsonNumber {
    negative: bool,
    integer: Vec<char>,
    fraction: Vec<char>,
}

impl View for JsonNumber {
    type V = SpecNumber;

    closed spec fn view(&self) -> SpecNumber {
        SpecNumber { negative: self.negative, integer: self.integer@, fraction: self.fraction@ }
    }
}

/// The canonical form: digits only, no leading zero in the integer part, no
/// trailing zero in the fraction. Zero keeps its sign, as an `f64` does.
pub open spec fn is_canonical(n: SpecNumber) -> bool {
    &&& all_digits(n.integer)
    &&& all_digits(n.fraction)
    &&& (n.integer.len() > 0 ==> n.integer[0] != '0')
    &&& (n.fraction.len() > 0 ==> n.fraction.last() != '0')
}

/// The number of leading decimal digits of `s`.
pub open spec fn digit_run(s: Seq<char>) -> nat
    decreases s.len(),
{
    if s.len() > 0 && is_digit(s[0]) {
        1 + digit_run(s.drop_first())
    } else {
        0
    }
}

/// `t` starts with a minus sign.
pub open spec fn literal_is_negative(t: Seq<char>) -> bool {
    t.len() > 0 && t[0] == '-'
}

/// The literal without its sign.
pub open spec fn literal_body(t: Seq<char>) -> Seq<char> {
    if literal_is_negative(t) {
        t.drop_first()
    } else {
        t
    }
}

/// The literals without exponent that the grammar of `f64::from_str`
/// accepts, among texts of digits, `.` and `-`: an optional `-`, then
/// `Digit+`, `Digit+ '.' Digit*` or `Digit* '.' Digit+`.
pub open spec fn valid_decimal(t: Seq<char>) -> bool {
    let b = literal_body(t);
    let k = digit_run(b);
    let rest = b.skip(k as int);
    ||| rest.len() == 0 && k > 0
    ||| rest.len() > 0 && rest[0] == '.' && all_digits(rest.drop_first()) && (k > 0
        || rest.len() > 1)
}

/// What JSON's grammar asks of a literal without exponent beyond that: at
/// least one digit before the point, no zero in front of another digit
/// there, and at least one digit after a point.
pub open spec fn json_decimal(t: Seq<char>) -> bool {
    let b = literal_body(t);
    let k = digit_run(b);
    &&& k > 0
    &&& (k == 1 || b[0] != '0')
    &&& (k == b.len() || b.len() > k + 1)
}

/// `s` without its leading zeros.
pub open spec fn strip_leading_zeros(s: Seq<char>) -> Seq<char>
    decreases s.len(),
{
    if s.len() > 0 && s[0] == '0' {
        strip_leading_zeros(s.drop_first())
    } else {
        s
    }
}

/// `s` without its trailing zeros.
pub open spec fn strip_trailing_zeros(s: Seq<char>) -> Seq<char>
    decreases s.len(),
{
    if s.len() > 0 && s.last() == '0' {
        strip_trailing_zeros(s.drop_last())
    } else {
        s
    }
}

/// The canonical decimal that a valid literal without exponent denotes.
pub open spec fn number_of_decimal(t: Seq<char>) -> SpecNumber {
    let b = literal_body(t);
    let k = digit_run(b);
    let integer = strip_leading_zeros(b.take(k as int));
    let fraction = if k < b.len() {
        strip_trailing_zeros(b.skip(k as int + 1))
    } else {
        Seq::<char>::empty()
    };
    SpecNumber {
        negative: literal_is_negative(t),
        integer,
        fraction,
    }
}

/// The index of the first `e` or `E` of `t` from `i` on, or the length of
/// `t` where there is none.
pub open spec fn mark_from(t: Seq<char>, i: int) -> int
    decreases t.len() - i,
{
    if i < 0 || i >= t.len() {
        t.len() as int
    } else if t[i] == 'e' || t[i] == 'E' {
        i
    } else {
        mark_from(t, i + 1)
    }
}

/// Where the exponent of a literal begins: its first `e` or `E`, or its
/// length where it has no exponent.
pub open spec fn exponent_mark(t: Seq<char>) -> int {
    mark_from(t, 0)
}

/// The value of a run of decimal digits.
pub open spec fn digits_value(s: Seq<char>) -> nat
    decreases s.len(),
{
    if s.len() == 0 {
        0
    } else {
        (digits_value(s.drop_last()) * 10 + (s.last() as int - '0' as int)) as nat
    }
}

/// The digits of an exponent part (the text after the `e`), without sign.
pub open spec fn exponent_digits(x: Seq<char>) -> Seq<char> {
    if x.len() > 0 && (x[0] == '+' || x[0] == '-') {
        x.drop_first()
    } else {
        x
    }
}

/// An exponent part: an optional sign and at least one digit.
pub open spec fn valid_exponent(x: Seq<char>) -> bool {
    exponent_digits(x).len() > 0 && all_digits(exponent_digits(x))
}

/// The value of an exponent part.
pub open spec fn exponent_value(x: Seq<char>) -> int {
    if x.len() > 0 && x[0] == '-' {
        -digits_value(exponent_digits(x))
    } else {
        digits_value(exponent_digits(x)) as int
    }
}

/// The number literals of JSON's grammar: an optional `-`, an integer part
/// (`0`, or digits that do not start with `0`), optionally `.` and at least
/// one digit, then optionally `e` or `E`, an optional sign and at least one
/// digit.
pub open spec fn valid_literal(t: Seq<char>) -> bool {
    let k = exponent_mark(t);
    &&& valid_decimal(t.take(k))
    &&& json_decimal(t.take(k))
    &&& (k >= t.len() || valid_exponent(t.skip(k + 1)))
}

/// `n` zeros.
pub open spec fn zeros(n: nat) -> Seq<char> {
    Seq::new(n, |i: int| '0')
}

/// The number `n` times ten to the power `x`, in canonical form: its digits
/// with the decimal point moved by `x` places.
pub open spec fn scale(n: SpecNumber, x: int) -> SpecNumber {
    let all = n.integer + n.fraction;
    let p = n.integer.len() + x;
    let ip = if p >= all.len() {
        all + zeros((p - all.len()) as nat)
    } else if p <= 0 {
        Seq::<char>::empty()
    } else {
        all.take(p)
    };
    let fp = if p >= all.len() {
        Seq::<char>::empty()
    } else if p <= 0 {
        zeros((-p) as nat) + all
    } else {
        all.skip(p)
    };
    let integer = strip_leading_zeros(ip);
    let fraction = strip_trailing_zeros(fp);
    SpecNumber { negative: n.negative, integer, fraction }
}

/// The canonical decimal that a valid literal denotes.
pub open spec fn number_of_literal(t: Seq<char>) -> SpecNumber {
    let k = exponent_mark(t);
    let m = number_of_decimal(t.take(k));
    settle(
        if k >= t.len() {
            m
        } else {
            scale(m, exponent_value(t.skip(k + 1)))
        },
    )
}

/// A non-zero number below `1e-324` in magnitude: no integer part, and at
/// least 324 zeros before the first significant digit of the fraction.
pub open spec fn below_f64(n: SpecNumber) -> bool {
    n.integer.len() == 0 && n.fraction.len() > 0 && leading_zeros(n.fraction) >= 324
}

/// The number as `f64` holds it where it is below `1e-324` in magnitude: a
/// zero of its sign (every such number rounds to zero); any other number as
/// it is.
pub open spec fn settle(n: SpecNumber) -> SpecNumber {
    if below_f64(n) {
        SpecNumber { negative: n.negative, integer: Seq::<char>::empty(), fraction: Seq::<char>::empty() }
    } else {
        n
    }
}

/// The decimal digits of the largest finite `f64`, `f64::MAX`, an integer.
pub open spec fn f64_max_digits() -> Seq<char> {
    "179769313486231570814527423731704356798070567525844996598917476803157260780028538760589558632766878171540458953514382464234321326889464182768467546703537516986049910576551282076245490090389328944075868508455133942304583236903222948165808559332123348274797826204144723168738177180919299881250404026184124858368"@
}

/// `a` comes after `b` in the order of characters, first difference first
/// (for two runs of digits of one length: the larger number).
pub open spec fn lex_greater(a: Seq<char>, b: Seq<char>) -> bool {
    exists|i: int|
        0 <= i < a.len() && i < b.len() && a.take(i) == b.take(i) && #[trigger] a[i] > b[i]
}

/// Beyond the range of `f64`: above `f64::MAX` in magnitude (the integer
/// part is a larger number than `f64::MAX`, or equal to it with a fraction).
pub open spec fn out_of_range(n: SpecNumber) -> bool {
    let max = f64_max_digits();
    ||| n.integer.len() > max.len()
    ||| (n.integer.len() == max.len() && lex_greater(n.integer, max))
    ||| (n.integer == max && n.fraction.len() > 0)
}

/// Settling a number changes nothing of whether it is in range.
proof fn lemma_settle(n: SpecNumber)
    ensures
        out_of_range(settle(n)) == out_of_range(n),
{
    reveal_strlit("179769313486231570814527423731704356798070567525844996598917476803157260780028538760589558632766878171540458953514382464234321326889464182768467546703537516986049910576551282076245490090389328944075868508455133942304583236903222948165808559332123348274797826204144723168738177180919299881250404026184124858368");
    if below_f64(n) {
        assert(!lex_greater(n.integer, f64_max_digits()));
        assert(!lex_greater(Seq::<char>::empty(), f64_max_digits()));
    }
}

/// The shortest literal of a canonical number: `-` when negative, the integer
/// digits (or `0`), then `.` and the fraction digits when there are any.
pub open spec fn literal_text(n: SpecNumber) -> Seq<char> {
    (if n.negative {
        seq!['-']
    } else {
        Seq::<char>::empty()
    }) + (if n.integer.len() == 0 {
        seq!['0']
    } else {
        n.integer
    }) + (if n.fraction.len() == 0 {
        Seq::<char>::empty()
    } else {
        seq!['.'] + n.fraction
    })
}

/// The number of zeros at the start of `s`.
pub open spec fn leading_zeros(s: Seq<char>) -> nat
    decreases s.len(),
{
    if s.len() > 0 && s[0] == '0' {
        1 + leading_zeros(s.drop_first())
    } else {
        0
    }
}

/// The power of ten of the first significant digit of a non-zero number.
pub open spec fn decimal_exponent(n: SpecNumber) -> int {
    if n.integer.len() > 0 {
        n.integer.len() - 1
    } else {
        -(leading_zeros(n.fraction) + 1)
    }
}

/// The significant digits of a non-zero number, without trailing zeros.
pub open spec fn significant_digits(n: SpecNumber) -> Seq<char> {
    if n.integer.len() > 0 {
        strip_trailing_zeros(n.integer + n.fraction)
    } else {
        n.fraction.skip(leading_zeros(n.fraction) as int)
    }
}

/// Non-zero numbers below `1e-4` or from `1e16` on read in exponent form.
pub open spec fn reads_with_exponent(n: SpecNumber) -> bool {
    !(n.integer.len() == 0 && n.fraction.len() == 0) && (decimal_exponent(n) >= 16
        || decimal_exponent(n) <= -5)
}

/// How the number reads in a token's debug text, as floats are shown in
/// debug output: with a fraction part (`42.0`, `-0.5`), or, for non-zero
/// numbers below `1e-4` or from `1e16` on, in exponent form (`1e16`,
/// `-2.5e-7`).
pub open spec fn debug_text(n: SpecNumber) -> Seq<char> {
    let sign = if n.negative {
        seq!['-']
    } else {
        Seq::<char>::empty()
    };
    if reads_with_exponent(n) {
        let d = significant_digits(n);
        let e = decimal_exponent(n);
        sign + seq![d[0]] + (if d.len() > 1 {
            seq!['.'] + d.drop_first()
        } else {
            Seq::<char>::empty()
        }) + seq!['e'] + (if e < 0 {
            seq!['-']
        } else {
            Seq::<char>::empty()
        }) + decimal_text((if e < 0 { -e } else { e }) as nat)
    } else {
        sign + (if n.integer.len() == 0 {
            seq!['0']
        } else {
            n.integer
        }) + seq!['.'] + (if n.fraction.len() == 0 {
            seq!['0']
        } else {
            n.fraction
        })
    }
}

proof fn lemma_leading_zeros(s: Seq<char>, z: int)
    requires
        0 <= z <= s.len(),
        forall|m: int| 0 <= m < z ==> #[trigger] s[m] == '0',
        z == s.len() || s[z] != '0',
    ensures
        leading_zeros(s) == z,
    decreases z,
{
    if z > 0 {
        lemma_leading_zeros(s.drop_first(), z - 1);
    }
}

/// The literal that `to_literal` writes reads back as the same number.
proof fn lemma_decimal_round_trip(n: SpecNumber)
    requires
        is_canonical(n),
    ensures
        valid_decimal(literal_text(n)),
        number_of_decimal(literal_text(n)) == n,
        json_decimal(literal_text(n)),
{
    let t = literal_text(n);
    let sign = if n.negative { seq!['-'] } else { Seq::<char>::empty() };
    let ip = if n.integer.len() == 0 { seq!['0'] } else { n.integer };
    let fp = if n.fraction.len() == 0 { Seq::<char>::empty() } else { seq!['.'] + n.fraction };
    assert(t == sign + ip + fp);
    let b = ip + fp;
    assert(ip.len() > 0);
    assert(literal_is_negative(t) == n.negative);
    assert(literal_body(t) == b) by {
        if n.negative {
            assert(t.drop_first() =~= b);
        } else {
            assert(t =~= b);
        }
    }
    assert forall|m: int| 0 <= m < ip.len() implies is_digit(#[trigger] b[m]) by {
        assert(b[m] == ip[m]);
    }
    if fp.len() > 0 {
        assert(b[ip.len() as int] == '.');
    }
    lemma_digit_run(b, ip.len() as int);
    assert(b[0] == ip[0]);
    assert(b.len() == ip.len() + fp.len());
    assert(b.take(ip.len() as int) =~= ip);
    let rest = b.skip(ip.len() as int);
    assert(rest =~= fp);
    if fp.len() > 0 {
        assert(rest.drop_first() =~= n.fraction);
        assert(b.skip(ip.len() as int + 1) =~= n.fraction);
        lemma_strip_trailing(n.fraction, n.fraction.len() as int);
        assert(n.fraction.take(n.fraction.len() as int) =~= n.fraction);
    }
    if n.integer.len() == 0 {
        assert(ip.drop_first() =~= Seq::<char>::empty());
        assert(strip_leading_zeros(ip.drop_first()) == Seq::<char>::empty());
        assert(strip_leading_zeros(ip) == Seq::<char>::empty());
    } else {
        lemma_strip_leading(n.integer, 0);
        assert(n.integer.skip(0) =~= n.integer);
    }
    assert(strip_leading_zeros(b.take(digit_run(b) as int)) == n.integer);
    let frac = if digit_run(b) < b.len() {
        strip_trailing_zeros(b.skip(digit_run(b) as int + 1))
    } else {
        Seq::<char>::empty()
    };
    assert(frac == n.fraction);
}

/// Law: the literal that `to_literal` writes reads back, through
/// `parse_literal`, as the same number, for every number within the range
/// of `f64` and not below `1e-324` in magnitude (which reads as zero).
pub proof fn law_literal_round_trip(n: SpecNumber)
    requires
        is_canonical(n),
        !out_of_range(n),
        !below_f64(n),
    ensures
        valid_literal(literal_text(n)),
        !out_of_range(number_of_literal(literal_text(n))),
        number_of_literal(literal_text(n)) == n,
{
    let t = literal_text(n);
    lemma_decimal_round_trip(n);
    assert forall|m: int| 0 <= m < t.len() implies #[trigger] t[m] != 'e' && t[m] != 'E' by {
        assert forall|m2: int| 0 <= m2 < n.integer.len() implies is_digit(#[trigger] n.integer[m2]) by {}
        assert forall|m2: int| 0 <= m2 < n.fraction.len() implies is_digit(#[trigger] n.fraction[m2]) by {}
    }
    lemma_no_mark(t, 0);
    assert(t.take(t.len() as int) =~= t);
}

/// Digits that write a positive whole number: no zero in front.
pub open spec fn whole_digits(d: Seq<char>) -> bool {
    &&& d.len() > 0
    &&& forall|m: int| 0 <= m < d.len() ==> '0' <= #[trigger] d[m] && d[m] <= '9'
    &&& d[0] != '0'
}

/// A run of digits `d` that writes a positive whole number is the number
/// with those integer digits and no fraction.
proof fn lemma_whole_decimal(d: Seq<char>)
    requires
        whole_digits(d),
    ensures
        valid_decimal(d),
        json_decimal(d),
        number_of_decimal(d) == (SpecNumber {
            negative: false,
            integer: d,
            fraction: Seq::<char>::empty(),
        }),
{
    assert(forall|m: int| 0 <= m < d.len() ==> is_digit(#[trigger] d[m]));
    lemma_digit_run(d, d.len() as int);
    assert(literal_body(d) == d);
    assert(d.take(d.len() as int) =~= d);
    assert(d.skip(d.len() as int) =~= Seq::<char>::empty());
    lemma_strip_leading(d, 0);
    assert(d.skip(0) =~= d);
}

/// The mark of `d + e + x`, where `d` has no `e` or `E`, is after `d`.
proof fn lemma_mark_after(d: Seq<char>, rest: Seq<char>, i: int)
    requires
        0 <= i <= d.len(),
        forall|m: int| 0 <= m < d.len() ==> '0' <= #[trigger] d[m] && d[m] <= '9',
        rest.len() > 0,
        rest[0] == 'e',
    ensures
        mark_from(d + rest, i) == d.len(),
    decreases d.len() - i,
{
    if i < d.len() {
        assert((d + rest)[i] == d[i]);
        lemma_mark_after(d, rest, i + 1);
    } else {
        assert((d + rest)[i] == rest[0]);
    }
}

/// Law: a whole number written in digits (no zero in front) with an
/// exponent `e` and digits `x` is that number followed by as many zeros as
/// `x` writes: `12e3` is `12000`.
pub proof fn law_whole_times_power_of_ten(d: Seq<char>, x: Seq<char>)
    requires
        whole_digits(d),
        x.len() > 0,
        forall|m: int| 0 <= m < x.len() ==> '0' <= #[trigger] x[m] && x[m] <= '9',
    ensures
        valid_literal(d + seq!['e'] + x),
        number_of_literal(d + seq!['e'] + x) == (SpecNumber {
            negative: false,
            integer: d + zeros(digits_value(x)),
            fraction: Seq::<char>::empty(),
        }),
{
    let t = d + seq!['e'] + x;
    let rest = seq!['e'] + x;
    assert(t =~= d + rest);
    lemma_mark_after(d, rest, 0);
    assert(t.take(d.len() as int) =~= d);
    assert(t.skip(d.len() as int + 1) =~= x);
    lemma_whole_decimal(d);
    assert(exponent_digits(x) == x);
    assert(all_digits(x));
    let v = digits_value(x);
    let m = number_of_decimal(d);
    let all = m.integer + m.fraction;
    assert(all =~= d);
    let ip = all + zeros(v);
    assert(ip[0] == d[0]);
    lemma_strip_leading(ip, 0);
    assert(ip.skip(0) =~= ip);
    assert(strip_trailing_zeros(Seq::<char>::empty()) == Seq::<char>::empty());
}

/// Law: a whole number written in digits (no zero in front, none at the
/// end) with an exponent `e-` and digits `x` that write a number `v` below
/// the count of its digits has the point moved `v` places to the left,
/// into its digits: `1234e-2` is `12.34`.
pub proof fn law_whole_over_power_of_ten(d: Seq<char>, x: Seq<char>)
    requires
        whole_digits(d),
        d.last() != '0',
        x.len() > 0,
        forall|m: int| 0 <= m < x.len() ==> '0' <= #[trigger] x[m] && x[m] <= '9',
        0 < digits_value(x) < d.len(),
    ensures
        valid_literal(d + seq!['e', '-'] + x),
        number_of_literal(d + seq!['e', '-'] + x) == (SpecNumber {
            negative: false,
            integer: d.take(d.len() - digits_value(x)),
            fraction: d.skip(d.len() - digits_value(x)),
        }),
{
    let t = d + seq!['e', '-'] + x;
    let rest = seq!['e', '-'] + x;
    assert(t =~= d + rest);
    lemma_mark_after(d, rest, 0);
    assert(t.take(d.len() as int) =~= d);
    let xs = t.skip(d.len() as int + 1);
    assert(xs =~= seq!['-'] + x);
    assert(exponent_digits(xs) =~= x);
    assert(all_digits(x));
    lemma_whole_decimal(d);
    let v = digits_value(x);
    let p = d.len() - v;
    let m = number_of_decimal(d);
    let all = m.integer + m.fraction;
    assert(all =~= d);
    let ip = all.take(p);
    assert(ip[0] == d[0]);
    lemma_strip_leading(ip, 0);
    assert(ip.skip(0) =~= ip);
    let fp = all.skip(p);
    assert(fp[fp.len() - 1] == d.last());
    lemma_strip_trailing(fp, fp.len() as int);
    assert(fp.take(fp.len() as int) =~= fp);
}

proof fn lemma_mark_shift(t: Seq<char>, i: int)
    requires
        0 <= i,
    ensures
        mark_from(seq!['-'] + t, i + 1) == mark_from(t, i) + 1,
    decreases t.len() - i,
{
    if i < t.len() {
        assert((seq!['-'] + t)[i + 1] == t[i]);
        lemma_mark_shift(t, i + 1);
    }
}

/// Law: a minus sign in front of a literal (that has none) makes the same
/// number negative, and changes nothing of whether the literal is valid:
/// `-t` is valid exactly when `t` is, and denotes `t`'s number with the sign
/// of a negative number, zero included.
pub proof fn law_minus_sign(t: Seq<char>)
    requires
        t.len() > 0,
        t[0] != '-',
    ensures
        valid_literal(seq!['-'] + t) == valid_literal(t),
        number_of_literal(seq!['-'] + t) == (SpecNumber {
            negative: true,
            integer: number_of_literal(t).integer,
            fraction: number_of_literal(t).fraction,
        }),
{
    let u = seq!['-'] + t;
    lemma_mark_shift(t, 0);
    assert(u[0] == '-');
    assert(mark_from(u, 0) == mark_from(u, 1));
    let k = exponent_mark(t);
    if k < t.len() {
        assert(t[k] == 'e' || t[k] == 'E') by {
            lemma_mark_is_mark(t, 0);
        }
    }
    lemma_mark_bound(t, 0);
    assert(u.take(k + 1) =~= seq!['-'] + t.take(k));
    if k < t.len() {
        assert(u.skip(k + 2) =~= t.skip(k + 1));
    }
    let h = t.take(k);
    if h.len() > 0 {
        assert(h[0] == t[0]);
    }
    assert(literal_body(seq!['-'] + h) =~= h);
    assert(literal_body(h) == h);
}

proof fn lemma_mark_bound(t: Seq<char>, i: int)
    requires
        0 <= i <= t.len(),
    ensures
        i <= mark_from(t, i) <= t.len(),
    decreases t.len() - i,
{
    if i < t.len() {
        lemma_mark_bound(t, i + 1);
    }
}

proof fn lemma_mark_is_mark(t: Seq<char>, i: int)
    requires
        0 <= i <= t.len(),
    ensures
        mark_from(t, i) < t.len() ==> (t[mark_from(t, i)] == 'e' || t[mark_from(t, i)] == 'E'),
    decreases t.len() - i,
{
    if i < t.len() {
        lemma_mark_is_mark(t, i + 1);
    }
}

/// A text without `e` or `E` from `i` on has its mark at its end.
proof fn lemma_no_mark(t: Seq<char>, i: int)
    requires
        0 <= i <= t.len(),
        forall|m: int| 0 <= m < t.len() ==> #[trigger] t[m] != 'e' && t[m] != 'E',
    ensures
        mark_from(t, i) == t.len(),
    decreases t.len() - i,
{
    if i < t.len() {
        lemma_no_mark(t, i + 1);
    }
}

proof fn lemma_digit_run(s: Seq<char>, j: int)
    requires
        0 <= j <= s.len(),
        forall|m: int| 0 <= m < j ==> is_digit(#[trigger] s[m]),
        j == s.len() || !is_digit(s[j]),
    ensures
        digit_run(s) == j,
    decreases j,
{
    if j > 0 {
        lemma_digit_run(s.drop_first(), j - 1);
    }
}

proof fn lemma_strip_leading(s: Seq<char>, z: int)
    requires
        0 <= z <= s.len(),
        forall|m: int| 0 <= m < z ==> #[trigger] s[m] == '0',
        z == s.len() || s[z] != '0',
    ensures
        strip_leading_zeros(s) == s.skip(z),
    decreases z,
{
    if z > 0 {
        lemma_strip_leading(s.drop_first(), z - 1);
        assert(s.drop_first().skip(z - 1) == s.skip(z));
    } else {
        assert(s.skip(0) == s);
    }
}

proof fn lemma_strip_trailing(s: Seq<char>, e: int)
    requires
        0 <= e <= s.len(),
        forall|m: int| e <= m < s.len() ==> #[trigger] s[m] == '0',
        e == 0 || s[e - 1] != '0',
    ensures
        strip_trailing_zeros(s) == s.take(e),
    decreases s.len() - e,
{
    if e < s.len() {
        lemma_strip_trailing(s.drop_last(), e);
        assert(s.drop_last().take(e) == s.take(e));
    } else {
        assert(s.take(e) == s);
    }
}

/// The end of the run of digits of `t` that starts at `from`.
fn scan_digits(t: &Vec<char>, from: usize) -> (r: usize)
    requires
        from <= t.len(),
    ensures
        from <= r <= t.len(),
        forall|m: int| from <= m < r ==> is_digit(#[trigger] t@[m]),
        r == t.len() || !is_digit(t@[r as int]),
{
    let mut i = from;
    while i < t.len() && '0' <= t[i] && t[i] <= '9'
        invariant
            from <= i <= t.len(),
            forall|m: int| from <= m < i ==> is_digit(#[trigger] t@[m]),
        decreases t.len() - i,
    {
        i = i + 1;
    }
    i
}

/// The end of the run of `'0'` of `t[from..to]` that starts at `from`.
fn skip_zeros(t: &Vec<char>, from: usize, to: usize) -> (r: usize)
    requires
        from <= to <= t.len(),
    ensures
        from <= r <= to,
        forall|m: int| from <= m < r ==> #[trigger] t@[m] == '0',
        r == to || t@[r as int] != '0',
{
    let mut z = from;
    while z < to && t[z] == '0'
        invariant
            from <= z <= to <= t.len(),
            forall|m: int| from <= m < z ==> #[trigger] t@[m] == '0',
        decreases to - z,
    {
        z = z + 1;
    }
    z
}

/// The start of the run of `'0'` that ends `t[from..to]`.
fn trim_zeros(t: &Vec<char>, from: usize, to: usize) -> (r: usize)
    requires
        from <= to <= t.len(),
    ensures
        from <= r <= to,
        forall|m: int| r <= m < to ==> #[trigger] t@[m] == '0',
        r == from || t@[r - 1] != '0',
{
    let mut e = to;
    while e > from && t[e - 1] == '0'
        invariant
            from <= e <= to <= t.len(),
            forall|m: int| e <= m < to ==> #[trigger] t@[m] == '0',
        decreases e,
    {
        e = e - 1;
    }
    e
}

/// How the scan of a literal decides its validity: `start` is where the
/// body begins, `i` ends its first run of digits, `j` ends the digits after
/// a `.` at `i` (or equals `i`).
#[verifier::rlimit(40)]
proof fn lemma_literal_shape(t: Seq<char>, start: int, i: int, j: int)
    requires
        start == (if literal_is_negative(t) { 1int } else { 0int }),
        start <= i <= j <= t.len(),
        forall|m: int| start <= m < i ==> is_digit(#[trigger] t[m]),
        i == t.len() || !is_digit(t[i]),
        (i < t.len() && t[i] == '.') ==> (i + 1 <= j && (forall|m: int| i + 1 <= m < j ==> is_digit(#[trigger] t[m])) && (j == t.len() || !is_digit(t[j]))),
        !(i < t.len() && t[i] == '.') ==> j == i,
    ensures
        literal_body(t) == t.skip(start),
        digit_run(literal_body(t)) == i - start,
        valid_decimal(t) <==> !(j < t.len() || (i == start && j <= i + 1)),
{
    let b = literal_body(t);
    assert(b == t.skip(start));
    assert forall|m: int| 0 <= m < i - start implies is_digit(#[trigger] b[m]) by {
        assert(b[m] == t[start + m]);
    }
    lemma_digit_run(b, i - start);
    let rest = b.skip(i - start);
    assert(rest == t.skip(i));
    if i < t.len() && t[i] == '.' {
        let d = rest.drop_first();
        assert(d == t.skip(i + 1));
        if j < t.len() {
            assert(d[j - i - 1] == t[j]);
        } else {
            assert forall|m: int| 0 <= m < d.len() implies is_digit(#[trigger] d[m]) by {
                assert(d[m] == t[i + 1 + m]);
            }
        }
    }
}

/// The integer part of a literal, once its leading zeros are skipped up to
/// `z`.
proof fn lemma_literal_parts(t: Seq<char>, b: Seq<char>, start: int, i: int, z: int)
    requires
        b == t.skip(start),
        0 <= start <= z <= i <= t.len(),
        forall|m: int| start <= m < z ==> #[trigger] t[m] == '0',
        z == i || t[z] != '0',
    ensures
        strip_leading_zeros(b.take(i - start)) == t.subrange(z, i),
{
    let ip = b.take(i - start);
    assert forall|m: int| 0 <= m < z - start implies #[trigger] ip[m] == '0' by {
        assert(ip[m] == t[start + m]);
    }
    lemma_strip_leading(ip, z - start);
    assert(ip.skip(z - start) == t.subrange(z, i));
}

/// The fraction of a literal, once its trailing zeros are trimmed from `e`.
proof fn lemma_literal_fraction(t: Seq<char>, start: int, i: int, e: int)
    requires
        literal_body(t) == t.skip(start),
        0 <= start <= i < e <= t.len(),
        i + 1 <= e,
        digit_run(literal_body(t)) == i - start,
        forall|m: int| e <= m < t.len() ==> #[trigger] t[m] == '0',
        e == i + 1 || t[e - 1] != '0',
    ensures
        strip_trailing_zeros(literal_body(t).skip(i - start + 1)) == t.subrange(i + 1, e),
{
    let fp = literal_body(t).skip(i - start + 1);
    assert(fp == t.subrange(i + 1, t.len() as int));
    assert forall|m: int| e - i - 1 <= m < fp.len() implies #[trigger] fp[m] == '0' by {
        assert(fp[m] == t[i + 1 + m]);
    }
    lemma_strip_trailing(fp, e - i - 1);
    assert(fp.take(e - i - 1) == t.subrange(i + 1, e));
}

/// The canonical number of a valid literal, read off the positions that the
/// scan finds: the body starts at `start`, its integer digits end at `i`,
/// leading zeros end at `z`, and the fraction's trailing zeros start at `e`.
#[verifier::rlimit(40)]
proof fn lemma_literal_value(t: Seq<char>, start: int, i: int, z: int, e: int)
    requires
        start == (if literal_is_negative(t) { 1int } else { 0int }),
        start <= z <= i <= t.len(),
        forall|m: int| start <= m < i ==> is_digit(#[trigger] t[m]),
        i == t.len() || t[i] == '.',
        forall|m: int| start <= m < z ==> #[trigger] t[m] == '0',
        z == i || t[z] != '0',
        i < t.len() ==> (i + 1 <= e <= t.len() && (forall|m: int| i + 1 <= m < t.len() ==> is_digit(
            #[trigger] t[m],
        )) && (forall|m: int| e <= m < t.len() ==> #[trigger] t[m] == '0') && (e == i + 1 || t[e
            - 1] != '0')),
    ensures
        ({
            let integer = t.subrange(z, i);
            let fraction = if i < t.len() {
                t.subrange(i + 1, e)
            } else {
                Seq::<char>::empty()
            };
            &&& number_of_decimal(t) == SpecNumber {
                negative: literal_is_negative(t),
                integer,
                fraction,
            }
            &&& is_canonical(number_of_decimal(t))
        }),
{
    let b = literal_body(t);
    assert(b == t.skip(start));
    assert forall|m: int| 0 <= m < i - start implies is_digit(#[trigger] b[m]) by {
        assert(b[m] == t[start + m]);
    }
    if i < t.len() {
        assert(b[i - start] == t[i]);
    }
    lemma_digit_run(b, i - start);
    lemma_literal_parts(t, b, start, i, z);
    if i < t.len() {
        lemma_literal_fraction(t, start, i, e);
    }
    let integer = t.subrange(z, i);
    assert forall|m: int| 0 <= m < integer.len() implies is_digit(#[trigger] integer[m]) by {
        assert(integer[m] == t[z + m]);
    }
    if i < t.len() {
        let fraction = t.subrange(i + 1, e);
        assert forall|m: int| 0 <= m < fraction.len() implies is_digit(#[trigger] fraction[m]) by {
            assert(fraction[m] == t[i + 1 + m]);
        }
    }
}

/// The characters `t[from..to]`, copied.
fn copy_range(t: &Vec<char>, from: usize, to: usize) -> (r: Vec<char>)
    requires
        from <= to <= t.len(),
    ensures
        r@ == t@.subrange(from as int, to as int),
{
    let mut r: Vec<char> = Vec::new();
    let mut i = from;
    while i < to
        invariant
            from <= i <= to <= t.len(),
            r@ == t@.subrange(from as int, i as int),
        decreases to - i,
    {
        r.push(t[i]);
        i = i + 1;
    }
    r
}

/// Whether a literal without exponent has the shape that JSON asks for.
fn json_shape(t: &Vec<char>) -> (r: bool)
    ensures
        r == json_decimal(t@),
{
    let len = t.len();
    let start: usize = if len > 0 && t[0] == '-' { 1 } else { 0 };
    let i = scan_digits(t, start);
    let ghost b = literal_body(t@);
    proof {
        assert(b == t@.skip(start as int));
        assert forall|m: int| 0 <= m < i - start implies is_digit(#[trigger] b[m]) by {
            assert(b[m] == t@[start + m]);
        }
        if i < len {
            assert(b[i - start] == t@[i as int]);
        }
        lemma_digit_run(b, i - start);
        if i > start {
            assert(b[0] == t@[start as int]);
        }
    }
    i > start && (i - start == 1 || t[start] != '0') && (i == len || len > i + 1)
}

/// Where the first `e` or `E` of `t` stands, or the length of `t`.
fn find_mark(t: &Vec<char>) -> (k: usize)
    ensures
        k as int == exponent_mark(t@),
        k <= t.len(),
{
    let mut k: usize = 0;
    while k < t.len() && t[k] != 'e' && t[k] != 'E'
        invariant
            k <= t.len(),
            mark_from(t@, k as int) == mark_from(t@, 0),
        decreases t.len() - k,
    {
        k = k + 1;
    }
    k
}

/// The exponent part of `t` from `from` on: whether it is negative, and its
/// value where that is at most `bound` (with `false`), or else `bound + 1`
/// (with `true`, the value being larger than `bound`); `None` where it is not
/// a valid exponent.
fn read_exponent(t: &Vec<char>, from: usize, bound: u128) -> (r: Option<(bool, u128, bool)>)
    requires
        from <= t.len(),
        bound < 0x1_0000_0000_0000_0000_0000,
    ensures
        r is Some <==> valid_exponent(t@.skip(from as int)),
        r matches Some((neg, v, big)) ==> ({
            let x = t@.skip(from as int);
            &&& neg == (x.len() > 0 && x[0] == '-')
            &&& big ==> digits_value(exponent_digits(x)) > bound
            &&& !big ==> v == digits_value(exponent_digits(x))
            &&& v <= bound
        }),
{
    let ghost x = t@.skip(from as int);
    let neg = from < t.len() && t[from] == '-';
    let ds = if from < t.len() && (t[from] == '+' || t[from] == '-') { from + 1 } else { from };
    let ghost d = exponent_digits(x);
    assert(d == t@.skip(ds as int));
    let de = scan_digits(t, ds);
    if de < t.len() || de == ds {
        proof {
            if de < t.len() {
                assert(!is_digit(d[de - ds]));
            }
        }
        return None;
    }
    assert forall|m: int| 0 <= m < d.len() implies is_digit(#[trigger] d[m]) by {
        assert(d[m] == t@[ds + m]);
    }
    let mut v: u128 = 0;
    let mut i: usize = ds;
    let mut big = false;
    while i < t.len()
        invariant
            ds <= i <= t.len(),
            d == t@.skip(ds as int),
            all_digits(d),
            bound < 0x1_0000_0000_0000_0000_0000,
            big ==> digits_value(d.take(i - ds)) > bound,
            !big ==> v == digits_value(d.take(i - ds)),
            v <= bound,
        decreases t.len() - i,
    {
        let ghost j = i - ds;
        assert(d.take(j + 1).drop_last() == d.take(j));
        assert(d[j] == t@[i as int]);
        assert(is_digit(d[j]));
        if !big {
            let digit = (t[i] as u32 - '0' as u32) as u128;
            let w = v * 10 + digit;
            if w > bound {
                big = true;
            } else {
                v = w;
            }
        }
        i = i + 1;
    }
    assert(d.take(d.len() as int) == d);
    Some((neg, v, big))
}

/// `s` starts with `z` zeros and has `e - z` more digits up to `e`, the last
/// of them non-zero, then only zeros.
pub open spec fn digit_shape(s: Seq<char>, z: int, e: int) -> bool {
    &&& 0 <= z < e <= s.len()
    &&& forall|m: int| 0 <= m < z ==> #[trigger] s[m] == '0'
    &&& s[z] != '0'
    &&& forall|m: int| e <= m < s.len() ==> #[trigger] s[m] == '0'
    &&& s[e - 1] != '0'
}

/// The integer part of a number scaled so far that its digits all stand
/// before the point.
proof fn lemma_scale_up(all: Seq<char>, z: int, e: int, k: nat)
    requires
        digit_shape(all, z, e),
    ensures
        strip_leading_zeros(all + zeros(k)) == all.skip(z) + zeros(k),
        strip_trailing_zeros(Seq::<char>::empty()) == Seq::<char>::empty(),
{
    let s = all + zeros(k);
    assert forall|m: int| 0 <= m < z implies #[trigger] s[m] == '0' by {
        assert(s[m] == all[m]);
    }
    assert(s[z] == all[z]);
    lemma_strip_leading(s, z);
    assert(s.skip(z) =~= all.skip(z) + zeros(k));
}

/// The fraction of a number scaled so far that its digits all stand after
/// the point.
proof fn lemma_scale_down(all: Seq<char>, z: int, e: int, k: nat)
    requires
        digit_shape(all, z, e),
    ensures
        strip_trailing_zeros(zeros(k) + all.take(e) + all.skip(e)) == zeros(k) + all.take(e),
        strip_trailing_zeros(zeros(k) + all) == zeros(k) + all.take(e),
        leading_zeros(zeros(k) + all.take(e)) == k + z,
        strip_leading_zeros(Seq::<char>::empty()) == Seq::<char>::empty(),
{
    let s = zeros(k) + all;
    assert(all.take(e) + all.skip(e) =~= all);
    assert(zeros(k) + all.take(e) + all.skip(e) =~= s);
    assert forall|m: int| k + e <= m < s.len() implies #[trigger] s[m] == '0' by {
        assert(s[m] == all[m - k]);
    }
    assert(s[k + e - 1] == all[e - 1]);
    lemma_strip_trailing(s, k + e);
    assert(s.take(k + e) =~= zeros(k) + all.take(e));
    let f = zeros(k) + all.take(e);
    assert forall|m: int| 0 <= m < k + z implies #[trigger] f[m] == '0' by {
        if m >= k {
            assert(f[m] == all[m - k]);
        }
    }
    assert(f[k + z] == all[z]);
    lemma_leading_zeros(f, k + z);
}

/// A non-zero number moved up so far that all its digits stand before the
/// point: its integer part is its digits from the first non-zero one, then
/// zeros.
proof fn lemma_scale_case_up(n: SpecNumber, x: int, z: int, e: int)
    requires
        is_canonical(n),
        digit_shape(n.integer + n.fraction, z, e),
        n.integer.len() + x >= n.integer.len() + n.fraction.len(),
    ensures
        scale(n, x) == (SpecNumber {
            negative: n.negative,
            integer: (n.integer + n.fraction).skip(z) + zeros(
                (n.integer.len() + x - (n.integer.len() + n.fraction.len())) as nat,
            ),
            fraction: Seq::<char>::empty(),
        }),
        scale(n, x).integer.len() == n.integer.len() + x - z,
{
    let all = n.integer + n.fraction;
    let k = (n.integer.len() + x - all.len()) as nat;
    lemma_scale_up(all, z, e, k);
}

/// A non-zero number moved down so far that all its digits stand after the
/// point: its fraction is zeros, then its digits up to the last non-zero
/// one.
proof fn lemma_scale_case_down(n: SpecNumber, x: int, z: int, e: int)
    requires
        is_canonical(n),
        digit_shape(n.integer + n.fraction, z, e),
        n.integer.len() + x <= 0,
    ensures
        scale(n, x) == (SpecNumber {
            negative: n.negative,
            integer: Seq::<char>::empty(),
            fraction: zeros((-(n.integer.len() + x)) as nat) + (n.integer + n.fraction).take(e),
        }),
        leading_zeros(scale(n, x).fraction) == -(n.integer.len() + x) + z,
{
    let all = n.integer + n.fraction;
    let k = (-(n.integer.len() + x)) as nat;
    lemma_scale_down(all, z, e, k);
}

/// A number whose point moves to within its digits: the digits before the
/// point from the first non-zero one, and after it up to the last non-zero
/// one.
#[verifier::rlimit(80)]
#[verifier::spinoff_prover]
proof fn lemma_scale_case_mid(n: SpecNumber, x: int, zi: int, fe: int)
    requires
        is_canonical(n),
        0 < n.integer.len() + x < n.integer.len() + n.fraction.len(),
        0 <= zi <= n.integer.len() + x <= fe <= n.integer.len() + n.fraction.len(),
        forall|m: int| 0 <= m < zi ==> #[trigger] (n.integer + n.fraction)[m] == '0',
        zi == n.integer.len() + x || (n.integer + n.fraction)[zi] != '0',
        forall|m: int|
            fe <= m < n.integer.len() + n.fraction.len() ==> #[trigger] (n.integer
                + n.fraction)[m] == '0',
        fe == n.integer.len() + x || (n.integer + n.fraction)[fe - 1] != '0',
    ensures
        ({
            let all = n.integer + n.fraction;
            let p = n.integer.len() + x;
            let integer = all.subrange(zi, p);
            let fraction = all.subrange(p, fe);
            scale(n, x) == (SpecNumber { negative: n.negative, integer, fraction })
        }),
{
    let all = n.integer + n.fraction;
    let p = n.integer.len() + x;
    let ip = all.take(p);
    assert forall|m: int| 0 <= m < zi implies #[trigger] ip[m] == '0' by {
        assert(ip[m] == all[m]);
    }
    if zi < p {
        assert(ip[zi] == all[zi]);
    }
    lemma_strip_leading(ip, zi);
    assert(ip.skip(zi) =~= all.subrange(zi, p));
    let fp = all.skip(p);
    assert forall|m: int| fe - p <= m < fp.len() implies #[trigger] fp[m] == '0' by {
        assert(fp[m] == all[p + m]);
    }
    if fe > p {
        assert(fp[fe - p - 1] == all[fe - 1]);
    }
    lemma_strip_trailing(fp, fe - p);
    assert(fp.take(fe - p) =~= all.subrange(p, fe));
}

/// A zero scaled by any power of ten is zero.
proof fn lemma_scale_zero(n: SpecNumber, x: int)
    requires
        is_canonical(n),
        n.integer.len() == 0,
        n.fraction.len() == 0,
    ensures
        scale(n, x) == n,
{
    let all = n.integer + n.fraction;
    assert(all =~= Seq::<char>::empty());
    if x >= 0 {
        let k = x as nat;
        assert(all + zeros(k) =~= zeros(k));
        assert forall|m: int| 0 <= m < k implies #[trigger] zeros(k)[m] == '0' by {}
        lemma_strip_leading(zeros(k), k as int);
        assert(zeros(k).skip(k as int) =~= Seq::<char>::empty());
        assert(strip_trailing_zeros(Seq::<char>::empty()) == Seq::<char>::empty());
    } else {
        let k = (-x) as nat;
        assert(zeros(k) + all =~= zeros(k));
        assert forall|m: int| 0 <= m < k implies #[trigger] zeros(k)[m] == '0' by {}
        lemma_strip_trailing(zeros(k), 0);
        assert(zeros(k).take(0) =~= Seq::<char>::empty());
        assert(strip_leading_zeros(Seq::<char>::empty()) == Seq::<char>::empty());
    }
}

impl JsonNumber {
    #[verifier::type_invariant]
    closed spec fn wf(self) -> bool {
        is_canonical(self@)
    }

    /// The canonical number of a literal without exponent, or `None` where
    /// it is not valid.
    fn from_decimal(t: &Vec<char>) -> (r: Option<JsonNumber>)
        ensures
            r is Some <==> valid_decimal(t@),
            r matches Some(n) ==> n@ == number_of_decimal(t@) && is_canonical(n@),
    {
        let len = t.len();
        let negative = len > 0 && t[0] == '-';
        let start: usize = if negative { 1 } else { 0 };
        let i = scan_digits(t, start);
        let j = if i < len && t[i] == '.' { scan_digits(t, i + 1) } else { i };
        proof {
            lemma_literal_shape(t@, start as int, i as int, j as int);
        }
        if j < len || (i == start && j <= i + 1) {
            return None;
        }
        let z = skip_zeros(t, start, i);
        let integer = copy_range(t, z, i);
        let e = if i < len { trim_zeros(t, i + 1, len) } else { len };
        let fraction = if i < len { copy_range(t, i + 1, e) } else { Vec::new() };
        proof {
            lemma_literal_value(t@, start as int, i as int, z as int, e as int);
            assert(fraction@ == (if i < len {
                t@.subrange(i + 1, e as int)
            } else {
                Seq::<char>::empty()
            }));
        }
        Some(JsonNumber { negative, integer, fraction })
    }

    /// The canonical number of a literal, or `None` where the literal is not
    /// valid or its value is out of the range of `f64`.
    #[verifier::rlimit(40)]
    pub fn from_literal(t: &Vec<char>) -> (r: Option<JsonNumber>)
        ensures
            r is Some <==> valid_literal(t@) && !out_of_range(number_of_literal(t@)),
            r matches Some(n) ==> n@ == number_of_literal(t@),
    {
        let k = find_mark(t);
        let head = copy_range(t, 0, k);
        let m = match JsonNumber::from_decimal(&head) {
            Some(m) => m,
            None => return None,
        };
        if !json_shape(&head) {
            return None;
        }
        proof {
            use_type_invariant(&m);
            lemma_settle(m@);
        }
        if k == t.len() {
            assert(t@.take(k as int) == t@);
            if m.is_out_of_range() {
                return None;
            }
            return Some(m.settled());
        }
        let bound: u128 = m.integer.len() as u128 + m.fraction.len() as u128 + 400;
        match read_exponent(t, k + 1, bound) {
            None => None,
            Some((neg, v, big)) => {
                let ghost xv = exponent_value(t@.skip(k + 1));
                proof {
                    lemma_settle(scale(m@, xv));
                }
                m.scaled(neg, v, big, Ghost(xv))
            },
        }
    }

    /// This number is beyond what `f64` holds.
    fn is_out_of_range(&self) -> (r: bool)
        ensures
            r == out_of_range(self@),
    {
        let max = crate::text::chars_of(
            "179769313486231570814527423731704356798070567525844996598917476803157260780028538760589558632766878171540458953514382464234321326889464182768467546703537516986049910576551282076245490090389328944075868508455133942304583236903222948165808559332123348274797826204144723168738177180919299881250404026184124858368",
        );
        let ghost a = self@.integer;
        let ghost b = f64_max_digits();
        assert(max@ == b);
        let il = self.integer.len();
        if il > max.len() {
            return true;
        }
        if il == max.len() {
            let mut i: usize = 0;
            while i < il && self.integer[i] == max[i]
                invariant
                    il == max.len() == a.len() == b.len(),
                    a == self.integer@,
                    b == max@,
                    i <= il,
                    forall|m: int| 0 <= m < i ==> a[m] == b[m],
                decreases il - i,
            {
                i = i + 1;
            }
            if i < il {
                if self.integer[i] > max[i] {
                    assert(a.take(i as int) =~= b.take(i as int));
                    assert(lex_greater(a, b));
                    return true;
                } else {
                    assert(!lex_greater(a, b)) by {
                        assert forall|j: int|
                            0 <= j < a.len() && j < b.len() && a.take(j) == b.take(j) implies !(
                            #[trigger] a[j] > b[j]) by {
                            if j > i {
                                assert(a.take(j)[i as int] == a[i as int]);
                                assert(b.take(j)[i as int] == b[i as int]);
                            }
                        }
                    }
                    assert(a != b);
                    return false;
                }
            }
            assert(a =~= b);
            assert(!lex_greater(a, b));
            return self.fraction.len() > 0;
        }
        assert(a != b);
        false
    }

    /// This number as `f64` holds it: below `1e-324` in magnitude, a zero of
    /// its sign.
    fn settled(self) -> (r: JsonNumber)
        ensures
            r@ == settle(self@),
    {
        if self.integer.len() == 0 && self.fraction.len() > 0 {
            let z = zeros_prefix(&self.fraction);
            proof {
                lemma_leading_zeros(self.fraction@, z as int);
            }
            if z >= 324 {
                return JsonNumber { negative: self.negative, integer: Vec::new(), fraction: Vec::new() };
            }
        }
        self
    }

    /// This number times ten to the power `xv`: where not `big`, `xv` is `x`,
    /// or `-x` where `x_neg`; where `big`, `xv` is larger in magnitude than
    /// the number of digits of this number and 400, and of the sign that
    /// `x_neg` tells. `None` where the result is out of range.
    #[verifier::rlimit(100)]
    fn scaled(&self, x_neg: bool, x: u128, big: bool, Ghost(xv): Ghost<int>) -> (r: Option<
        JsonNumber,
    >)
        requires
            x <= self@.integer.len() + self@.fraction.len() + 400,
            !big ==> xv == (if x_neg {
                -(x as int)
            } else {
                x as int
            }),
            big ==> (if x_neg {
                xv < -(self@.integer.len() + self@.fraction.len() + 400)
            } else {
                xv > self@.integer.len() + self@.fraction.len() + 400
            }),
        ensures
            r is Some <==> !out_of_range(scale(self@, xv)),
            r matches Some(n) ==> n@ == settle(scale(self@, xv)),
    {
        proof {
            use_type_invariant(self);
            reveal_strlit("179769313486231570814527423731704356798070567525844996598917476803157260780028538760589558632766878171540458953514382464234321326889464182768467546703537516986049910576551282076245490090389328944075868508455133942304583236903222948165808559332123348274797826204144723168738177180919299881250404026184124858368");
        }
        let ilen = self.integer.len();
        let mut all = copy_range(&self.integer, 0, ilen);
        let mut j: usize = 0;
        while j < self.fraction.len()
            invariant
                j <= self.fraction.len(),
                all@ == self.integer@ + self.fraction@.take(j as int),
            decreases self.fraction.len() - j,
        {
            all.push(self.fraction[j]);
            assert(all@ == self.integer@ + self.fraction@.take(j + 1));
            j = j + 1;
        }
        assert(self.fraction@.take(self.fraction.len() as int) == self.fraction@);
        let ghost sall = all@;
        assert(sall == self@.integer + self@.fraction);
        assert(all_digits(sall)) by {
            assert forall|m: int| 0 <= m < sall.len() implies is_digit(#[trigger] sall[m]) by {
                if m < ilen {
                    assert(sall[m] == self@.integer[m]);
                } else {
                    assert(sall[m] == self@.fraction[m - ilen]);
                }
            }
        }
        let n_all = all.len();
        if n_all == 0 {
            proof {
                lemma_scale_zero(self@, xv);
            }
            return Some(self.duplicate());
        }
        let z = skip_zeros(&all, 0, n_all);
        let e = trim_zeros(&all, 0, n_all);
        proof {
            if ilen > 0 {
                assert(sall[0] == self@.integer[0]);
            } else {
                assert(sall[n_all - 1] == self@.fraction.last());
            }
            assert(z < n_all);
            if e <= z {
                assert(sall[z as int] == '0');
            }
            assert(digit_shape(sall, z as int, e as int));
        }
        if big {
            if x_neg {
                proof {
                    lemma_scale_case_down(self@, xv, z as int, e as int);
                }
                return Some(
                    JsonNumber { negative: self.negative, integer: Vec::new(), fraction: Vec::new() },
                );
            } else {
                proof {
                    lemma_scale_case_up(self@, xv, z as int, e as int);
                }
                return None;
            }
        }
        let p_exec: i128 = if x_neg {
            ilen as i128 - x as i128
        } else {
            ilen as i128 + x as i128
        };
        if p_exec >= n_all as i128 {
            self.scaled_up(&all, z, e, p_exec, Ghost(xv))
        } else if p_exec <= 0 {
            self.scaled_down(&all, z, e, p_exec, Ghost(xv))
        } else {
            self.scaled_mid(&all, z, e, p_exec, Ghost(xv))
        }
    }

    /// `scaled`, where the point moves past all the digits.
    #[verifier::rlimit(60)]
    fn scaled_up(&self, all: &Vec<char>, z: usize, e: usize, p_exec: i128, Ghost(xv): Ghost<int>) -> (r: Option<JsonNumber>)
        requires
            is_canonical(self@),
            all@ == self@.integer + self@.fraction,
            all_digits(all@),
            digit_shape(all@, z as int, e as int),
            p_exec == self@.integer.len() + xv,
            -(all.len() + 400) <= p_exec <= 2 * all.len() + 400,
            p_exec >= all.len(),
        ensures
            r is Some <==> !out_of_range(scale(self@, xv)),
            r matches Some(n) ==> n@ == settle(scale(self@, xv)),
    {
        proof {
            reveal_strlit("179769313486231570814527423731704356798070567525844996598917476803157260780028538760589558632766878171540458953514382464234321326889464182768467546703537516986049910576551282076245490090389328944075868508455133942304583236903222948165808559332123348274797826204144723168738177180919299881250404026184124858368");
        }
        let n_all = all.len();
        let ghost sall = all@;
        proof {
            lemma_scale_case_up(self@, xv, z as int, e as int);
        }
        if p_exec - z as i128 > 309 {
            return None;
        }
        let k = (p_exec - n_all as i128) as usize;
        let mut integer = copy_range(&all, z, n_all);
        let mut c: usize = 0;
        while c < k
            invariant
                c <= k,
                integer@ == sall.skip(z as int) + zeros(c as nat),
            decreases k - c,
        {
            integer.push('0');
            assert(integer@ =~= sall.skip(z as int) + zeros((c + 1) as nat));
            c = c + 1;
        }
        proof {
            assert(integer@[0] == sall[z as int]);
            assert forall|m: int| 0 <= m < integer@.len() implies is_digit(#[trigger] integer@[m]) by {
                if m < n_all - z {
                    assert(integer@[m] == sall[z + m]);
                }
            }
        }
        let n = JsonNumber { negative: self.negative, integer, fraction: Vec::new() };
        assert(n@ == scale(self@, xv));
        if n.is_out_of_range() {
            return None;
        }
        return Some(n);
    }

    /// `scaled`, where the point moves before all the digits.
    #[verifier::rlimit(60)]
    fn scaled_down(&self, all: &Vec<char>, z: usize, e: usize, p_exec: i128, Ghost(xv): Ghost<int>) -> (r: Option<JsonNumber>)
        requires
            is_canonical(self@),
            all@ == self@.integer + self@.fraction,
            all_digits(all@),
            digit_shape(all@, z as int, e as int),
            p_exec == self@.integer.len() + xv,
            -(all.len() + 400) <= p_exec <= 2 * all.len() + 400,
            p_exec <= 0,
        ensures
            r is Some <==> !out_of_range(scale(self@, xv)),
            r matches Some(n) ==> n@ == settle(scale(self@, xv)),
    {
        proof {
            reveal_strlit("179769313486231570814527423731704356798070567525844996598917476803157260780028538760589558632766878171540458953514382464234321326889464182768467546703537516986049910576551282076245490090389328944075868508455133942304583236903222948165808559332123348274797826204144723168738177180919299881250404026184124858368");
        }
        let n_all = all.len();
        let ghost sall = all@;
        let kk: i128 = -p_exec;
        proof {
            lemma_scale_case_down(self@, xv, z as int, e as int);
        }
        if kk + z as i128 >= 324 {
            return Some(
                JsonNumber { negative: self.negative, integer: Vec::new(), fraction: Vec::new() },
            );
        }
        let k = kk as usize;
        let mut fraction: Vec<char> = Vec::new();
        let mut c: usize = 0;
        while c < k
            invariant
                c <= k,
                fraction@ == zeros(c as nat),
            decreases k - c,
        {
            fraction.push('0');
            assert(fraction@ =~= zeros((c + 1) as nat));
            c = c + 1;
        }
        let mut i: usize = 0;
        while i < e
            invariant
                i <= e <= n_all,
                all@ == sall,
                sall.len() == n_all,
                fraction@ == zeros(k as nat) + sall.take(i as int),
            decreases e - i,
        {
            fraction.push(all[i]);
            assert(fraction@ =~= zeros(k as nat) + sall.take(i + 1));
            i = i + 1;
        }
        proof {
            assert(fraction@.last() == sall[e - 1]);
            assert forall|m: int| 0 <= m < fraction@.len() implies is_digit(#[trigger] fraction@[m]) by {
                if m >= k {
                    assert(fraction@[m] == sall[m - k]);
                }
            }
        }
        let n = JsonNumber { negative: self.negative, integer: Vec::new(), fraction };
        assert(n@ == scale(self@, xv));
        if n.is_out_of_range() {
            return None;
        }
        return Some(n);
    }

    /// `scaled`, where the point moves to within the digits.
    #[verifier::rlimit(60)]
    fn scaled_mid(&self, all: &Vec<char>, z: usize, e: usize, p_exec: i128, Ghost(xv): Ghost<int>) -> (r: Option<JsonNumber>)
        requires
            is_canonical(self@),
            all@ == self@.integer + self@.fraction,
            all_digits(all@),
            digit_shape(all@, z as int, e as int),
            p_exec == self@.integer.len() + xv,
            -(all.len() + 400) <= p_exec <= 2 * all.len() + 400,
            0 < p_exec < all.len(),
        ensures
            r is Some <==> !out_of_range(scale(self@, xv)),
            r matches Some(n) ==> n@ == settle(scale(self@, xv)),
    {
        proof {
            reveal_strlit("179769313486231570814527423731704356798070567525844996598917476803157260780028538760589558632766878171540458953514382464234321326889464182768467546703537516986049910576551282076245490090389328944075868508455133942304583236903222948165808559332123348274797826204144723168738177180919299881250404026184124858368");
        }
        let n_all = all.len();
        let ghost sall = all@;
        let pu = p_exec as usize;
        let zi = skip_zeros(&all, 0, pu);
        let fe = trim_zeros(&all, pu, n_all);
        let integer = copy_range(&all, zi, pu);
        let fraction = copy_range(&all, pu, fe);
        proof {
            lemma_scale_case_mid(self@, xv, zi as int, fe as int);
            assert forall|m: int| 0 <= m < integer@.len() implies is_digit(#[trigger] integer@[m]) by {
                assert(integer@[m] == sall[zi + m]);
            }
            assert forall|m: int| 0 <= m < fraction@.len() implies is_digit(#[trigger] fraction@[m]) by {
                assert(fraction@[m] == sall[pu + m]);
            }
            if integer@.len() > 0 {
                assert(integer@[0] == sall[zi as int]);
            }
            if fraction@.len() > 0 {
                assert(fraction@.last() == sall[fe - 1]);
            }
        }
        let n = JsonNumber { negative: self.negative, integer, fraction };
        assert(n@ == scale(self@, xv));
        if n.is_out_of_range() {
            return None;
        }
        return Some(n.settled());
    }

    /// The canonical number of a literal given as text, or `None` where the
    /// literal is not valid or its value is out of the range of `f64`.
    pub fn parse_literal(text: &str) -> (r: Option<JsonNumber>)
        ensures
            r is Some <==> valid_literal(text@) && !out_of_range(number_of_literal(text@)),
            r matches Some(n) ==> n@ == number_of_literal(text@),
    {
        let t = crate::text::chars_of(text);
        JsonNumber::from_literal(&t)
    }

    /// The number is below zero.
    pub fn is_negative(&self) -> (r: bool)
        ensures
            r == self@.negative,
    {
        self.negative
    }

    /// The digits of the integer part, without leading zeros (none for zero).
    pub fn integer_digits(&self) -> (r: &Vec<char>)
        ensures
            r@ == self@.integer,
    {
        &self.integer
    }

    /// The digits of the fraction, without trailing zeros.
    pub fn fraction_digits(&self) -> (r: &Vec<char>)
        ensures
            r@ == self@.fraction,
    {
        &self.fraction
    }

    /// A copy of this number.
    pub fn duplicate(&self) -> (r: JsonNumber)
        ensures
            r@ == self@,
    {
        proof {
            use_type_invariant(self);
        }
        let integer = copy_range(&self.integer, 0, self.integer.len());
        let fraction = copy_range(&self.fraction, 0, self.fraction.len());
        assert(integer@ == self.integer@);
        assert(fraction@ == self.fraction@);
        JsonNumber { negative: self.negative, integer, fraction }
    }

    /// The shortest literal of this number, e.g. `42`, `-0.5`.
    pub fn to_literal(&self) -> (r: String)
        ensures
            r@ == literal_text(self@),
    {
        let mut s = String::new();
        if self.negative {
            push_char(&mut s, '-');
        }
        if self.integer.len() == 0 {
            push_char(&mut s, '0');
        } else {
            append_chars(&mut s, &self.integer);
        }
        if self.fraction.len() > 0 {
            push_char(&mut s, '.');
            append_chars(&mut s, &self.fraction);
        }
        s
    }

    /// The number as a token's debug text shows it, e.g. `42.0`, `-0.5`.
    #[verifier::rlimit(40)]
    pub fn to_debug_text(&self) -> (r: String)
        ensures
            r@ == debug_text(self@),
    {
        proof {
            use_type_invariant(self);
        }
        let mut s = String::new();
        if self.negative {
            push_char(&mut s, '-');
        }
        let ilen = self.integer.len();
        let flen = self.fraction.len();
        let z = zeros_prefix(&self.fraction);
        proof {
            lemma_leading_zeros(self.fraction@, z as int);
        }
        if !(ilen == 0 && flen == 0) && (ilen > 16 || (ilen == 0 && z >= 4)) {
            let d = self.significant(z);
            push_char(&mut s, d[0]);
            if d.len() > 1 {
                push_char(&mut s, '.');
                let rest = copy_range(&d, 1, d.len());
                append_chars(&mut s, &rest);
                assert(rest@ == d@.drop_first());
            }
            push_char(&mut s, 'e');
            if ilen > 0 {
                push_decimal(&mut s, ilen - 1);
            } else {
                push_char(&mut s, '-');
                push_decimal(&mut s, z + 1);
            }
        } else {
            if ilen == 0 {
                push_char(&mut s, '0');
            } else {
                append_chars(&mut s, &self.integer);
            }
            push_char(&mut s, '.');
            if flen == 0 {
                push_char(&mut s, '0');
            } else {
                append_chars(&mut s, &self.fraction);
            }
        }
        s
    }

    /// The significant digits of this non-zero number, given the count `z`
    /// of leading zeros of its fraction.
    #[verifier::rlimit(40)]
    fn significant(&self, z: usize) -> (d: Vec<char>)
        requires
            !(self@.integer.len() == 0 && self@.fraction.len() == 0),
            z == leading_zeros(self@.fraction),
            z <= self@.fraction.len(),
            forall|m: int| 0 <= m < z ==> #[trigger] self@.fraction[m] == '0',
            z == self@.fraction.len() || self@.fraction[z as int] != '0',
        ensures
            d@ == significant_digits(self@),
            d@.len() > 0,
    {
        proof {
            use_type_invariant(self);
        }
        if self.integer.len() > 0 {
            let mut d = copy_range(&self.integer, 0, self.integer.len());
            let f = copy_range(&self.fraction, 0, self.fraction.len());
            assert(d@ == self.integer@);
            assert(f@ == self.fraction@);
            let mut j: usize = 0;
            while j < f.len()
                invariant
                    j <= f.len(),
                    d@ == self.integer@ + f@.take(j as int),
                decreases f.len() - j,
            {
                d.push(f[j]);
                assert(d@ == self.integer@ + f@.take(j + 1));
                j = j + 1;
            }
            assert(f@.take(f.len() as int) == f@);
            let e = trim_zeros(&d, 0, d.len());
            proof {
                lemma_strip_trailing(d@, e as int);
                assert(d@[0] == self.integer@[0]);
            }
            copy_range(&d, 0, e)
        } else {
            proof {
                if z == self.fraction@.len() {
                    assert(self@.fraction[z - 1] == '0');
                }
            }
            copy_range(&self.fraction, z, self.fraction.len())
        }
    }
}

/// The number of zeros at the start of `v`.
fn zeros_prefix(v: &Vec<char>) -> (z: usize)
    ensures
        z <= v.len(),
        forall|m: int| 0 <= m < z ==> #[trigger] v@[m] == '0',
        z == v.len() || v@[z as int] != '0',
{
    skip_zeros(v, 0, v.len())
}

impl Clone for JsonNumber {
    fn clone(&self) -> (r: JsonNumber)
        ensures
            r@ == self@,
    {
        self.duplicate()
    }
}

} // verus!
