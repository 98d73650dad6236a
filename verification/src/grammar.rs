//! The mathematical grammar: a recursive-descent parser over a sequence of
//! characters, written as spec functions. Every executable parsing function
//! is proved to return exactly what the corresponding spec function says,
//! both the parsed value (or typed error) and the cursor position.
//!
//! Positions are threaded explicitly: each function takes the index of the
//! next unconsumed character and yields the index after whatever it
//! consumed. Intermediate positions are passed through [`norm`], which
//! clamps them to the input; since every parsing function in fact stays
//! within bounds, the clamp never changes a value, but it makes
//! termination of the mutual recursion provable.

use vstd::prelude::*;
use crate::value::{JsonErr, JsonVal, Keyword};

verus! {

/// The JSON whitespace set: space, newline, carriage return, tab.
pub open spec fn is_ws_char(c: char) -> bool {
    c == ' ' || c == '\n' || c == '\r' || c == '\t'
}

/// A decimal digit.
pub open spec fn is_digit_char(c: char) -> bool {
    '0' <= c && c <= '9'
}

/// A hexadecimal letter, either case.
pub open spec fn is_hex_letter(c: char) -> bool {
    ('a' <= c && c <= 'f') || ('A' <= c && c <= 'F')
}

/// A character that the string parser folds into an escape sequence:
/// a decimal digit or a hexadecimal letter.
pub open spec fn is_hex_or_digit(c: char) -> bool {
    is_digit_char(c) || is_hex_letter(c)
}

/// The lookahead at position `i`, or `None` past the end.
pub open spec fn peek_at(s: Seq<char>, i: int) -> Option<char> {
    if 0 <= i < s.len() {
        Some(s[i])
    } else {
        None
    }
}

/// `j` clamped into `[lo, hi]`. Every position a parsing spec function
/// yields is in fact within bounds, so this is the identity wherever it is
/// applied; it only makes that fact syntactically evident.
pub open spec fn norm(lo: int, j: int, hi: int) -> int {
    if j < lo {
        lo
    } else if j > hi {
        hi
    } else {
        j
    }
}

/// Position after the run of whitespace starting at `i`.
pub open spec fn sp_ws(s: Seq<char>, i: int) -> int
    decreases s.len() - i,
        when 0 <= i <= s.len()
{
    if i < s.len() && is_ws_char(s[i]) {
        sp_ws(s, i + 1)
    } else {
        i
    }
}

/// Consuming one exactly-expected character: succeed and advance past it,
/// or fail naming the expected character and the one found.
pub open spec fn sp_expect(s: Seq<char>, i: int, c: char) -> (Result<(), JsonErr>, int) {
    if peek_at(s, i) == Some(c) {
        (Ok(()), i + 1)
    } else {
        (Err(JsonErr::StructuralMismatch { expected: c, found: peek_at(s, i) }), i)
    }
}

/// Position after the run of decimal digits starting at `i`.
pub open spec fn sp_digits_end(s: Seq<char>, i: int) -> int
    decreases s.len() - i,
        when 0 <= i <= s.len()
{
    if i < s.len() && is_digit_char(s[i]) {
        sp_digits_end(s, i + 1)
    } else {
        i
    }
}

/// Position after the run of hex-or-digit characters starting at `i`.
pub open spec fn sp_hex_run_end(s: Seq<char>, i: int) -> int
    decreases s.len() - i,
        when 0 <= i <= s.len()
{
    if i < s.len() && is_hex_or_digit(s[i]) {
        sp_hex_run_end(s, i + 1)
    } else {
        i
    }
}

/// The characters of a keyword literal.
pub open spec fn keyword_chars(k: Keyword) -> Seq<char> {
    match k {
        Keyword::True => seq!['t', 'r', 'u', 'e'],
        Keyword::False => seq!['f', 'a', 'l', 's', 'e'],
        Keyword::Null => seq!['n', 'u', 'l', 'l'],
    }
}

/// Matching a keyword literal from its `k`-th character on: each input
/// character is consumed and then compared, so the first mismatching
/// character is consumed too and nothing is restored; at end of input
/// nothing further is consumed. Fails naming the literal.
pub open spec fn sp_keyword_from(s: Seq<char>, i: int, lit: Keyword, k: int) -> (Result<
    (),
    JsonErr,
>, int)
    decreases keyword_chars(lit).len() - k,
        when 0 <= i <= s.len() && 0 <= k <= keyword_chars(lit).len()
{
    let kw = keyword_chars(lit);
    if k >= kw.len() {
        (Ok(()), i)
    } else if i >= s.len() {
        (Err(JsonErr::LiteralMismatch { literal: lit }), i)
    } else if s[i] == kw[k] {
        sp_keyword_from(s, i + 1, lit, k + 1)
    } else {
        (Err(JsonErr::LiteralMismatch { literal: lit }), i + 1)
    }
}

/// A whole keyword literal and the value it denotes.
pub open spec fn sp_keyword_value(s: Seq<char>, i: int, lit: Keyword) -> (Result<
    JsonVal,
    JsonErr,
>, int) {
    let (r, j) = sp_keyword_from(s, i, lit, 0);
    match r {
        Ok(u) => (
            Ok(
                match lit {
                    Keyword::True => JsonVal::Bool(true),
                    Keyword::False => JsonVal::Bool(false),
                    Keyword::Null => JsonVal::Null,
                },
            ),
            j,
        ),
        Err(e) => (Err(e), j),
    }
}

/// The body of a string literal from `i` up to (not including) the closing
/// quote: a backslash is copied together with the following character and
/// any immediately following run of hex-or-digit characters; every other
/// character is copied as-is. Nothing is decoded. Fails with a premature
/// end where the input ends before an unescaped closing quote.
pub open spec fn sp_string_body(s: Seq<char>, i: int) -> (Result<Seq<char>, JsonErr>, int)
    decreases s.len() - i,
        when 0 <= i <= s.len()
{
    if i >= s.len() {
        (Err(JsonErr::PrematureEnd), i)
    } else if s[i] == '"' {
        (Ok(Seq::empty()), i)
    } else if s[i] == '\\' {
        if i + 1 >= s.len() {
            (Err(JsonErr::PrematureEnd), i + 1)
        } else {
            let e = norm(i + 2, sp_hex_run_end(s, i + 2), s.len() as int);
            let (r, j) = sp_string_body(s, e);
            match r {
                Ok(rest) => (Ok(s.subrange(i, e) + rest), j),
                Err(er) => (Err(er), j),
            }
        }
    } else {
        let (r, j) = sp_string_body(s, i + 1);
        match r {
            Ok(rest) => (Ok(seq![s[i]] + rest), j),
            Err(er) => (Err(er), j),
        }
    }
}

/// A string literal: the opening quote, the raw body, the closing quote.
pub open spec fn sp_string(s: Seq<char>, i: int) -> (Result<JsonVal, JsonErr>, int) {
    let (r0, j0) = sp_expect(s, i, '"');
    match r0 {
        Err(e) => (Err(e), j0),
        Ok(u) => {
            let j1 = norm(i, j0, s.len() as int);
            let (r1, j2) = sp_string_body(s, j1);
            match r1 {
                Err(e) => (Err(e), j2),
                Ok(body) => {
                    let (r2, j3) = sp_expect(s, j2, '"');
                    match r2 {
                        Err(e) => (Err(e), j3),
                        Ok(u2) => (Ok(JsonVal::Str(body)), j3),
                    }
                },
            }
        },
    }
}

/// The integer part of a number: an optional leading minus, then one or
/// more digits; fails with an expected-digit error if no digit follows.
/// Yields the matched text. A lone minus is consumed before the failure.
pub open spec fn sp_integer(s: Seq<char>, i: int) -> (Result<Seq<char>, JsonErr>, int) {
    let j = if i < s.len() && s[i] == '-' {
        i + 1
    } else {
        i
    };
    if j < s.len() && is_digit_char(s[j]) {
        let e = norm(j, sp_digits_end(s, j), s.len() as int);
        (Ok(s.subrange(i, e)), e)
    } else {
        (Err(JsonErr::ExpectedDigit { found: peek_at(s, j) }), j)
    }
}

/// The optional fraction part: a literal dot followed by zero or more
/// digits, or nothing. Never fails.
pub open spec fn sp_fraction(s: Seq<char>, i: int) -> (Option<Seq<char>>, int) {
    if i < s.len() && s[i] == '.' {
        let e = norm(i + 1, sp_digits_end(s, i + 1), s.len() as int);
        (Some(s.subrange(i, e)), e)
    } else {
        (None, i)
    }
}

/// The optional exponent part: `e` or `E`, an optional sign, zero or more
/// digits, or nothing. Never fails.
pub open spec fn sp_exponent(s: Seq<char>, i: int) -> (Option<Seq<char>>, int) {
    if i < s.len() && (s[i] == 'e' || s[i] == 'E') {
        let j = if i + 1 < s.len() && (s[i + 1] == '-' || s[i + 1] == '+') {
            i + 2
        } else {
            i + 1
        };
        let e = norm(j, sp_digits_end(s, j), s.len() as int);
        (Some(s.subrange(i, e)), e)
    } else {
        (None, i)
    }
}

/// The numeric value of a run of decimal digits.
pub open spec fn digits_val(t: Seq<char>) -> int
    decreases t.len(),
{
    if t.len() == 0 {
        0
    } else {
        digits_val(t.drop_last()) * 10 + (t.last() as u32 - 48)
    }
}

/// The signed value of an integer literal text (optional minus, digits).
pub open spec fn int_text_val(t: Seq<char>) -> int {
    if t.len() > 0 && t[0] == '-' {
        -digits_val(t.drop_first())
    } else {
        digits_val(t)
    }
}

/// Whether a matched exponent part can denote a 64-bit float: absent, or
/// carrying at least one digit (its last character is then a digit).
pub open spec fn exponent_ok(exp: Option<Seq<char>>) -> bool {
    match exp {
        None => true,
        Some(e) => e.len() >= 2 && is_digit_char(e[e.len() - 1]),
    }
}

/// A number literal. With a fraction or exponent present the value is a
/// `Double` carrying the whole matched text, rejected only where the
/// exponent part is empty of digits; otherwise the integer text denotes an
/// `Int` exactly when its value fits 64 signed bits, and overflow is a
/// number-format failure, never a silent promotion.
pub open spec fn sp_number(s: Seq<char>, i: int) -> (Result<JsonVal, JsonErr>, int) {
    let (r0, j0) = sp_integer(s, i);
    match r0 {
        Err(e) => (Err(e), j0),
        Ok(intx) => {
            let j1 = norm(i, j0, s.len() as int);
            let (frc, j2) = sp_fraction(s, j1);
            let j2n = norm(j1, j2, s.len() as int);
            let (exp, j3) = sp_exponent(s, j2n);
            if frc is Some || exp is Some {
                let text = intx + frc.unwrap_or(Seq::empty()) + exp.unwrap_or(Seq::empty());
                if exponent_ok(exp) {
                    (Ok(JsonVal::Double(text)), j3)
                } else {
                    (Err(JsonErr::NumberFormat { text }), j3)
                }
            } else {
                let v = int_text_val(intx);
                if i64::MIN as int <= v <= i64::MAX as int {
                    (Ok(JsonVal::Int(v)), j3)
                } else {
                    (Err(JsonErr::NumberFormat { text: intx }), j3)
                }
            }
        },
    }
}

/// The last-write-wins insertion into an object's entry list: an existing
/// entry for the key has its value replaced in place; a new key goes to
/// the end.
pub open spec fn obj_insert(
    m: Seq<(Seq<char>, JsonVal)>,
    k: Seq<char>,
    v: JsonVal,
) -> Seq<(Seq<char>, JsonVal)>
    decreases m.len(),
{
    if m.len() == 0 {
        seq![(k, v)]
    } else if m[0].0 == k {
        seq![(k, v)] + m.drop_first()
    } else {
        seq![m[0]] + obj_insert(m.drop_first(), k, v)
    }
}

/// The object built from a list of key/value pairs in parse order, a later
/// pair for the same key overwriting the earlier value.
pub open spec fn obj_of_pairs(ps: Seq<(Seq<char>, JsonVal)>) -> Seq<(Seq<char>, JsonVal)>
    decreases ps.len(),
{
    if ps.len() == 0 {
        Seq::empty()
    } else {
        obj_insert(obj_of_pairs(ps.drop_last()), ps.last().0, ps.last().1)
    }
}

/// The value dispatcher: one character of lookahead routes to the matching
/// parser; everything that is not an object, array, string or keyword
/// opener goes to the number parser; an exhausted stream is a premature
/// end.
pub open spec fn sp_value(s: Seq<char>, i: int) -> (Result<JsonVal, JsonErr>, int)
    decreases s.len() - i, 2int,
        when 0 <= i <= s.len()
{
    if i >= s.len() {
        (Err(JsonErr::PrematureEnd), i)
    } else if s[i] == '{' {
        sp_object(s, i)
    } else if s[i] == '[' {
        sp_array(s, i)
    } else if s[i] == '"' {
        sp_string(s, i)
    } else if s[i] == 't' {
        sp_keyword_value(s, i, Keyword::True)
    } else if s[i] == 'f' {
        sp_keyword_value(s, i, Keyword::False)
    } else if s[i] == 'n' {
        sp_keyword_value(s, i, Keyword::Null)
    } else {
        sp_number(s, i)
    }
}

/// A top-level element: leading whitespace, one value, trailing
/// whitespace.
pub open spec fn sp_element(s: Seq<char>, i: int) -> (Result<JsonVal, JsonErr>, int)
    decreases s.len() - i, 3int,
        when 0 <= i <= s.len()
{
    let j = norm(i, sp_ws(s, i), s.len() as int);
    let (r, k) = sp_value(s, j);
    match r {
        Err(e) => (Err(e), k),
        Ok(v) => {
            let k1 = norm(j, k, s.len() as int);
            (Ok(v), norm(k1, sp_ws(s, k1), s.len() as int))
        },
    }
}

/// The comma-separated elements of a non-empty array, starting after the
/// opening bracket (or a comma): one element, then, while a comma
/// follows, another.
pub open spec fn sp_items(s: Seq<char>, i: int) -> (Result<Seq<JsonVal>, JsonErr>, int)
    decreases s.len() - i, 4int,
        when 0 <= i <= s.len()
{
    let (r, j0) = sp_element(s, i);
    match r {
        Err(e) => (Err(e), j0),
        Ok(v) => {
            let j = norm(i, j0, s.len() as int);
            if j < s.len() && s[j] == ',' {
                let (r2, k) = sp_items(s, j + 1);
                match r2 {
                    Ok(vs) => (Ok(seq![v] + vs), k),
                    Err(e) => (Err(e), k),
                }
            } else {
                (Ok(seq![v]), j)
            }
        },
    }
}

/// An array: the opening bracket; an immediately following (possibly
/// whitespace-preceded) closing bracket yields the empty array; otherwise
/// the comma-separated elements and the required closing bracket.
pub open spec fn sp_array(s: Seq<char>, i: int) -> (Result<JsonVal, JsonErr>, int)
    decreases s.len() - i, 1int,
        when 0 <= i <= s.len()
{
    let (r0, j0) = sp_expect(s, i, '[');
    match r0 {
        Err(e) => (Err(e), j0),
        Ok(u) => {
            let j = norm(i, j0, s.len() as int);
            let w = norm(j, sp_ws(s, j), s.len() as int);
            if w < s.len() && s[w] == ']' {
                (Ok(JsonVal::Array(Seq::empty())), w + 1)
            } else {
                let (r1, k) = sp_items(s, w);
                match r1 {
                    Err(e) => (Err(e), k),
                    Ok(vs) => {
                        let (r2, k2) = sp_expect(s, k, ']');
                        match r2 {
                            Err(e) => (Err(e), k2),
                            Ok(u2) => (Ok(JsonVal::Array(vs)), k2),
                        }
                    },
                }
            }
        },
    }
}

/// One `key: value` pair of an object: a string-literal key, the required
/// colon between skipped whitespace, and a full element as the value.
pub open spec fn sp_key_value(s: Seq<char>, i: int) -> (Result<(JsonVal, JsonVal), JsonErr>, int)
    decreases s.len() - i, 2int,
        when 0 <= i <= s.len()
{
    let (r0, j0) = sp_string(s, i);
    match r0 {
        Err(e) => (Err(e), j0),
        Ok(kv) => {
            let j = norm(i, j0, s.len() as int);
            let w = norm(j, sp_ws(s, j), s.len() as int);
            let (r1, c0) = sp_expect(s, w, ':');
            match r1 {
                Err(e) => (Err(e), c0),
                Ok(u) => {
                    let c = norm(w, c0, s.len() as int);
                    let w2 = norm(c, sp_ws(s, c), s.len() as int);
                    let (r2, k) = sp_element(s, w2);
                    match r2 {
                        Err(e) => (Err(e), k),
                        Ok(v) => (Ok((kv, v)), k),
                    }
                },
            }
        },
    }
}

/// The comma-separated members of a non-empty object, starting after the
/// opening brace (or a comma), as the list of parsed pairs in parse
/// order. A pair whose key position did not parse as a string would be
/// dropped silently; the key parser only ever yields strings, so the drop
/// never happens.
pub open spec fn sp_members(s: Seq<char>, i: int) -> (Result<
    Seq<(Seq<char>, JsonVal)>,
    JsonErr,
>, int)
    decreases s.len() - i, 4int,
        when 0 <= i <= s.len()
{
    let w = norm(i, sp_ws(s, i), s.len() as int);
    let (r, j0) = sp_key_value(s, w);
    match r {
        Err(e) => (Err(e), j0),
        Ok(kv) => {
            let j = norm(i, j0, s.len() as int);
            let pair: Seq<(Seq<char>, JsonVal)> = match kv.0 {
                JsonVal::Str(t) => seq![(t, kv.1)],
                _ => Seq::empty(),
            };
            if j < s.len() && s[j] == ',' {
                let (r2, k) = sp_members(s, j + 1);
                match r2 {
                    Ok(ps) => (Ok(pair + ps), k),
                    Err(e) => (Err(e), k),
                }
            } else {
                (Ok(pair), j)
            }
        },
    }
}

/// An object: the opening brace; an immediately following (possibly
/// whitespace-preceded) closing brace yields the empty object; otherwise
/// the members folded by last-write-wins insertion and the required
/// closing brace.
pub open spec fn sp_object(s: Seq<char>, i: int) -> (Result<JsonVal, JsonErr>, int)
    decreases s.len() - i, 1int,
        when 0 <= i <= s.len()
{
    let (r0, j0) = sp_expect(s, i, '{');
    match r0 {
        Err(e) => (Err(e), j0),
        Ok(u) => {
            let j = norm(i, j0, s.len() as int);
            let w = norm(j, sp_ws(s, j), s.len() as int);
            if w < s.len() && s[w] == '}' {
                (Ok(JsonVal::Object(Seq::empty())), w + 1)
            } else {
                let (r1, k) = sp_members(s, w);
                match r1 {
                    Err(e) => (Err(e), k),
                    Ok(ps) => {
                        let (r2, k2) = sp_expect(s, k, '}');
                        match r2 {
                            Err(e) => (Err(e), k2),
                            Ok(u2) => (Ok(JsonVal::Object(obj_of_pairs(ps))), k2),
                        }
                    },
                }
            }
        },
    }
}

/// A whole document: one top-level element. Trailing input after a
/// syntactically complete value is ignored, never checked.
pub open spec fn sp_parse(s: Seq<char>) -> Result<JsonVal, JsonErr> {
    sp_element(s, 0).0
}

} // verus!
