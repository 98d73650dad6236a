//! The executable recursive-descent parser. Every function is proved to
//! return exactly the value (or typed error) and the position that the
//! mathematical grammar in [`crate::grammar`] assigns to its input.
//!
//! The cursor is the pair of the shared character buffer and an index:
//! peeking is reading at the index, advancing is incrementing it. Failed
//! parses never rewind the position.

use vstd::prelude::*;
use vstd::pervasive::VecAdditionalExecFns;
use vstd::string::StrSliceExecFns;
use crate::grammar::{
    is_digit_char, is_hex_or_digit, is_ws_char, keyword_chars, norm, obj_insert, obj_of_pairs,
    peek_at, sp_array, sp_digits_end, sp_element, sp_expect, sp_fraction, sp_hex_run_end,
    sp_integer, sp_items, sp_exponent, sp_key_value, sp_keyword_from, sp_keyword_value,
    sp_members, sp_number, sp_object, sp_parse, sp_string, sp_string_body, sp_value, sp_ws,
};
use crate::numbers::{i64_from_text, int_literal_shape};
use crate::trusted::push_char;
use crate::value::{
    entry_views_upto, lemma_entry_views_upto_index, lemma_views_upto_index, views_upto, JsonErr,
    JsonVal, Keyword, ParseError, Value,
};

verus! {

/// The lookahead: the character at `pos`, or `None` past the end.
pub fn peek(s: &Vec<char>, pos: usize) -> (r: Option<char>)
    ensures
        r == peek_at(s@, pos as int),
{
    if pos < s.len() {
        Some(s[pos])
    } else {
        None
    }
}

/// Whether `c` is JSON whitespace.
fn is_ws(c: char) -> (r: bool)
    ensures
        r == is_ws_char(c),
{
    c == ' ' || c == '\n' || c == '\r' || c == '\t'
}

/// Whether `c` is a decimal digit.
fn is_digit(c: char) -> (r: bool)
    ensures
        r == is_digit_char(c),
{
    '0' <= c && c <= '9'
}

/// Whether `c` is a decimal digit or a hexadecimal letter.
fn is_hex(c: char) -> (r: bool)
    ensures
        r == is_hex_or_digit(c),
{
    is_digit(c) || ('a' <= c && c <= 'f') || ('A' <= c && c <= 'F')
}

/// Consumes the run of whitespace at `pos`; a no-op if none is there.
pub fn skip_ws(s: &Vec<char>, pos: usize) -> (r: usize)
    requires
        pos <= s@.len(),
    ensures
        r as int == sp_ws(s@, pos as int),
        pos <= r <= s@.len(),
{
    let mut p = pos;
    while p < s.len() && is_ws(s[p])
        invariant
            pos <= p <= s@.len(),
            sp_ws(s@, pos as int) == sp_ws(s@, p as int),
        decreases s@.len() - p,
    {
        p = p + 1;
    }
    p
}

/// Consumes exactly the expected character, or fails naming it and the
/// character found (or nothing, at end of stream). Never backtracks.
pub fn expect(s: &Vec<char>, pos: usize, c: char) -> (r: (Result<(), ParseError>, usize))
    requires
        pos <= s@.len(),
    ensures
        ({
            let (sr, sj) = sp_expect(s@, pos as int, c);
            &&& r.1 as int == sj
            &&& pos <= r.1 <= s@.len()
            &&& (r.0 is Ok <==> sr is Ok)
            &&& (r.0 matches Err(e) ==> e@ == sr->Err_0)
        }),
{
    if pos < s.len() && s[pos] == c {
        (Ok(()), pos + 1)
    } else {
        (Err(ParseError::StructuralMismatch { expected: c, found: peek(s, pos) }), pos)
    }
}

/// The position after the run of decimal digits at `pos`.
fn digits_end(s: &Vec<char>, pos: usize) -> (r: usize)
    requires
        pos <= s@.len(),
    ensures
        r as int == sp_digits_end(s@, pos as int),
        pos <= r <= s@.len(),
        forall|k: int| pos <= k < r ==> is_digit_char(#[trigger] s@[k]),
        r < s@.len() ==> !is_digit_char(s@[r as int]),
{
    let mut p = pos;
    while p < s.len() && is_digit(s[p])
        invariant
            pos <= p <= s@.len(),
            sp_digits_end(s@, pos as int) == sp_digits_end(s@, p as int),
            forall|k: int| pos <= k < p ==> is_digit_char(#[trigger] s@[k]),
        decreases s@.len() - p,
    {
        p = p + 1;
    }
    p
}

/// The position after the run of hex-or-digit characters at `pos`.
fn hex_run(s: &Vec<char>, pos: usize) -> (r: usize)
    requires
        pos <= s@.len(),
    ensures
        r as int == sp_hex_run_end(s@, pos as int),
        pos <= r <= s@.len(),
{
    let mut p = pos;
    while p < s.len() && is_hex(s[p])
        invariant
            pos <= p <= s@.len(),
            sp_hex_run_end(s@, pos as int) == sp_hex_run_end(s@, p as int),
        decreases s@.len() - p,
    {
        p = p + 1;
    }
    p
}

/// The text held by a character vector, as a `String`.
pub fn chars_to_string(v: &Vec<char>) -> (r: String)
    ensures
        r@ == v@,
{
    let mut out = String::new();
    let mut k: usize = 0;
    while k < v.len()
        invariant
            0 <= k <= v@.len(),
            out@ =~= v@.subrange(0, k as int),
        decreases v@.len() - k,
    {
        push_char(&mut out, v[k]);
        proof {
            assert(v@.subrange(0, k + 1) =~= v@.subrange(0, k as int).push(v@[k as int]));
        }
        k = k + 1;
    }
    proof {
        assert(v@.subrange(0, v@.len() as int) =~= v@);
    }
    out
}

/// The length of a keyword literal.
fn kw_len(lit: Keyword) -> (r: usize)
    ensures
        r as int == keyword_chars(lit).len(),
{
    match lit {
        Keyword::True => 4,
        Keyword::False => 5,
        Keyword::Null => 4,
    }
}

/// The `k`-th character of a keyword literal.
fn kw_char(lit: Keyword, k: usize) -> (r: char)
    requires
        k < keyword_chars(lit).len(),
    ensures
        r == keyword_chars(lit)[k as int],
{
    match lit {
        Keyword::True => {
            if k == 0 { 't' } else if k == 1 { 'r' } else if k == 2 { 'u' } else { 'e' }
        },
        Keyword::False => {
            if k == 0 { 'f' } else if k == 1 { 'a' } else if k == 2 { 'l' } else if k == 3 {
                's'
            } else {
                'e'
            }
        },
        Keyword::Null => {
            if k == 0 { 'n' } else if k == 1 { 'u' } else { 'l' }
        },
    }
}

/// Matches one keyword literal by consuming each input character and then
/// comparing it, so nothing consumed is ever restored.
fn parse_keyword(s: &Vec<char>, pos: usize, lit: Keyword) -> (r: (Result<Value, ParseError>, usize))
    requires
        pos <= s@.len(),
    ensures
        ({
            let (sr, sj) = sp_keyword_value(s@, pos as int, lit);
            &&& r.1 as int == sj
            &&& pos <= r.1 <= s@.len()
            &&& (r.0 is Ok <==> sr is Ok)
            &&& (r.0 matches Ok(v) ==> v@ == sr->Ok_0)
            &&& (r.0 matches Err(e) ==> e@ == sr->Err_0)
            &&& (r.0 is Ok ==> r.1 > pos)
        }),
{
    let n = kw_len(lit);
    let mut k: usize = 0;
    let mut p = pos;
    while k < n
        invariant
            0 <= k <= n,
            n as int == keyword_chars(lit).len(),
            pos <= p <= s@.len(),
            p - pos == k,
            sp_keyword_from(s@, pos as int, lit, 0) == sp_keyword_from(s@, p as int, lit, k as int),
        decreases n - k,
    {
        if p >= s.len() {
            return (Err(ParseError::LiteralMismatch { literal: lit }), p);
        }
        let c = s[p];
        p = p + 1;
        if c != kw_char(lit, k) {
            return (Err(ParseError::LiteralMismatch { literal: lit }), p);
        }
        k = k + 1;
    }
    let v = match lit {
        Keyword::True => Value::Bool(true),
        Keyword::False => Value::Bool(false),
        Keyword::Null => Value::Null,
    };
    (Ok(v), p)
}

/// Parses the keyword literal `true`.
pub fn parse_true(s: &Vec<char>, pos: usize) -> (r: (Result<Value, ParseError>, usize))
    requires
        pos <= s@.len(),
    ensures
        ({
            let (sr, sj) = sp_keyword_value(s@, pos as int, Keyword::True);
            &&& r.1 as int == sj
            &&& pos <= r.1 <= s@.len()
            &&& (r.0 is Ok <==> sr is Ok)
            &&& (r.0 matches Ok(v) ==> v@ == sr->Ok_0)
            &&& (r.0 matches Err(e) ==> e@ == sr->Err_0)
            &&& (r.0 is Ok ==> r.1 > pos)
        }),
{
    parse_keyword(s, pos, Keyword::True)
}

/// Parses the keyword literal `false`.
pub fn parse_false(s: &Vec<char>, pos: usize) -> (r: (Result<Value, ParseError>, usize))
    requires
        pos <= s@.len(),
    ensures
        ({
            let (sr, sj) = sp_keyword_value(s@, pos as int, Keyword::False);
            &&& r.1 as int == sj
            &&& pos <= r.1 <= s@.len()
            &&& (r.0 is Ok <==> sr is Ok)
            &&& (r.0 matches Ok(v) ==> v@ == sr->Ok_0)
            &&& (r.0 matches Err(e) ==> e@ == sr->Err_0)
            &&& (r.0 is Ok ==> r.1 > pos)
        }),
{
    parse_keyword(s, pos, Keyword::False)
}

/// Parses the keyword literal `null`.
pub fn parse_null(s: &Vec<char>, pos: usize) -> (r: (Result<Value, ParseError>, usize))
    requires
        pos <= s@.len(),
    ensures
        ({
            let (sr, sj) = sp_keyword_value(s@, pos as int, Keyword::Null);
            &&& r.1 as int == sj
            &&& pos <= r.1 <= s@.len()
            &&& (r.0 is Ok <==> sr is Ok)
            &&& (r.0 matches Ok(v) ==> v@ == sr->Ok_0)
            &&& (r.0 matches Err(e) ==> e@ == sr->Err_0)
            &&& (r.0 is Ok ==> r.1 > pos)
        }),
{
    parse_keyword(s, pos, Keyword::Null)
}

/// Holds between the whole remaining string-body parse and the parse from
/// the current position, with `acc` the text already collected.
pub open spec fn body_cont(
    full: (Result<Seq<char>, crate::value::JsonErr>, int),
    cur: (Result<Seq<char>, crate::value::JsonErr>, int),
    acc: Seq<char>,
) -> bool {
    match cur.0 {
        Ok(rest) => full.0 == Ok::<Seq<char>, crate::value::JsonErr>(acc + rest) && full.1 == cur.1,
        Err(e) => full.0 == Err::<Seq<char>, crate::value::JsonErr>(e) && full.1 == cur.1,
    }
}

/// Parses a string literal: the opening quote, the raw body copied
/// verbatim (escapes included, never decoded), the closing quote.
pub fn parse_string(s: &Vec<char>, pos: usize) -> (r: (Result<Value, ParseError>, usize))
    requires
        pos <= s@.len(),
    ensures
        ({
            let (sr, sj) = sp_string(s@, pos as int);
            &&& r.1 as int == sj
            &&& pos <= r.1 <= s@.len()
            &&& (r.0 is Ok <==> sr is Ok)
            &&& (r.0 matches Ok(v) ==> v@ == sr->Ok_0)
            &&& (r.0 matches Err(e) ==> e@ == sr->Err_0)
            &&& (r.0 is Ok ==> r.1 > pos)
        }),
{
    let (r0, j0) = expect(s, pos, '"');
    if let Err(e) = r0 {
        return (Err(e), j0);
    }
    let ghost start = j0 as int;
    let mut body = String::new();
    let mut p = j0;
    proof {
        assert(norm(pos as int, j0 as int, s@.len() as int) == j0 as int);
        assert(body@ + sp_string_body(s@, start).0->Ok_0 =~= sp_string_body(s@, start).0->Ok_0);
    }
    loop
        invariant
            pos < s@.len(),
            s@[pos as int] == '"',
            start == pos + 1,
            start <= p <= s@.len(),
            body_cont(sp_string_body(s@, start), sp_string_body(s@, p as int), body@),
        decreases s@.len() - p,
    {
        if p >= s.len() {
            return (Err(ParseError::PrematureEnd), p);
        }
        let c = s[p];
        if c == '"' {
            let (r2, j3) = expect(s, p, '"');
            proof {
                assert(sp_string_body(s@, p as int) == (
                    Ok::<Seq<char>, crate::value::JsonErr>(Seq::<char>::empty()),
                    p as int,
                ));
                assert(body@ + Seq::<char>::empty() =~= body@);
            }
            return (Ok(Value::Str(body)), j3);
        }
        if c == '\\' {
            if p + 1 >= s.len() {
                return (Err(ParseError::PrematureEnd), p + 1);
            }
            let ghost old_body = body@;
            push_char(&mut body, s[p]);
            push_char(&mut body, s[p + 1]);
            let e = hex_run(s, p + 2);
            let mut q = p + 2;
            while q < e
                invariant
                    p + 2 <= q <= e,
                    e <= s@.len(),
                    body@ =~= old_body + s@.subrange(p as int, q as int),
                decreases e - q,
            {
                push_char(&mut body, s[q]);
                proof {
                    assert(s@.subrange(p as int, q + 1) =~= s@.subrange(p as int, q as int).push(
                        s@[q as int],
                    ));
                }
                q = q + 1;
            }
            proof {
                let sb = sp_string_body(s@, p as int);
                let en = norm(p + 2, sp_hex_run_end(s@, p + 2), s@.len() as int);
                assert(en == e as int);
                assert(body@ =~= old_body + s@.subrange(p as int, e as int));
                match sp_string_body(s@, e as int).0 {
                    Ok(rest) => {
                        assert(old_body + (s@.subrange(p as int, e as int) + rest) =~= body@
                            + rest);
                    },
                    Err(er) => {},
                }
            }
            p = e;
        } else {
            let ghost old_body = body@;
            push_char(&mut body, c);
            proof {
                match sp_string_body(s@, p + 1).0 {
                    Ok(rest) => {
                        assert(old_body + (seq![s@[p as int]] + rest) =~= body@ + rest);
                    },
                    Err(er) => {},
                }
            }
            p = p + 1;
        }
    }
}

/// Parses the integer part of a number: an optional minus then one or
/// more digits, yielding the matched text.
pub fn parse_integer(s: &Vec<char>, pos: usize) -> (r: (Result<Vec<char>, ParseError>, usize))
    requires
        pos <= s@.len(),
    ensures
        ({
            let (sr, sj) = sp_integer(s@, pos as int);
            &&& r.1 as int == sj
            &&& pos <= r.1 <= s@.len()
            &&& (r.0 is Ok <==> sr is Ok)
            &&& (r.0 matches Ok(t) ==> t@ == sr->Ok_0 && int_literal_shape(t@) && r.1 > pos)
            &&& (r.0 matches Err(e) ==> e@ == sr->Err_0)
        }),
{
    let j = if pos < s.len() && s[pos] == '-' {
        pos + 1
    } else {
        pos
    };
    if j < s.len() && is_digit(s[j]) {
        let e = digits_end(s, j);
        let mut t: Vec<char> = Vec::new();
        let mut q = pos;
        while q < e
            invariant
                pos <= q <= e,
                e <= s@.len(),
                t@ =~= s@.subrange(pos as int, q as int),
            decreases e - q,
        {
            t.push(s[q]);
            proof {
                assert(s@.subrange(pos as int, q + 1) =~= s@.subrange(pos as int, q as int).push(
                    s@[q as int],
                ));
            }
            q = q + 1;
        }
        proof {
            assert(norm(j as int, sp_digits_end(s@, j as int), s@.len() as int) == e as int);
            assert(t@ =~= s@.subrange(pos as int, e as int));
            if pos < j {
                assert(t@[0] == '-');
                assert(t@.drop_first() =~= s@.subrange(j as int, e as int));
                assert(forall|k: int|
                    0 <= k < t@.drop_first().len() ==> is_digit_char(
                        #[trigger] t@.drop_first()[k],
                    ));
            } else {
                assert(forall|k: int| 0 <= k < t@.len() ==> is_digit_char(#[trigger] t@[k]));
                assert(t@[0] != '-');
            }
        }
        (Ok(t), e)
    } else {
        (Err(ParseError::ExpectedDigit { found: peek(s, j) }), j)
    }
}

/// Parses the optional fraction part: a dot and zero or more digits.
pub fn parse_fraction(s: &Vec<char>, pos: usize) -> (r: (Option<Vec<char>>, usize))
    requires
        pos <= s@.len(),
    ensures
        ({
            let (so, sj) = sp_fraction(s@, pos as int);
            &&& r.1 as int == sj
            &&& pos <= r.1 <= s@.len()
            &&& (r.0 is Some <==> so is Some)
            &&& (r.0 matches Some(t) ==> t@ == so->0)
        }),
{
    if pos < s.len() && s[pos] == '.' {
        let e = digits_end(s, pos + 1);
        let mut t: Vec<char> = Vec::new();
        let mut q = pos;
        while q < e
            invariant
                pos <= q <= e,
                e <= s@.len(),
                t@ =~= s@.subrange(pos as int, q as int),
            decreases e - q,
        {
            t.push(s[q]);
            proof {
                assert(s@.subrange(pos as int, q + 1) =~= s@.subrange(pos as int, q as int).push(
                    s@[q as int],
                ));
            }
            q = q + 1;
        }
        proof {
            assert(norm(pos + 1, sp_digits_end(s@, pos + 1), s@.len() as int) == e as int);
            assert(t@ =~= s@.subrange(pos as int, e as int));
        }
        (Some(t), e)
    } else {
        (None, pos)
    }
}

/// Parses the optional exponent part: `e` or `E`, an optional sign, zero
/// or more digits.
pub fn parse_exponent(s: &Vec<char>, pos: usize) -> (r: (Option<Vec<char>>, usize))
    requires
        pos <= s@.len(),
    ensures
        ({
            let (so, sj) = sp_exponent(s@, pos as int);
            &&& r.1 as int == sj
            &&& pos <= r.1 <= s@.len()
            &&& (r.0 is Some <==> so is Some)
            &&& (r.0 matches Some(t) ==> t@ == so->0)
        }),
{
    if pos < s.len() && (s[pos] == 'e' || s[pos] == 'E') {
        let j = if pos + 1 < s.len() && (s[pos + 1] == '-' || s[pos + 1] == '+') {
            pos + 2
        } else {
            pos + 1
        };
        let e = digits_end(s, j);
        let mut t: Vec<char> = Vec::new();
        let mut q = pos;
        while q < e
            invariant
                pos <= q <= e,
                e <= s@.len(),
                t@ =~= s@.subrange(pos as int, q as int),
            decreases e - q,
        {
            t.push(s[q]);
            proof {
                assert(s@.subrange(pos as int, q + 1) =~= s@.subrange(pos as int, q as int).push(
                    s@[q as int],
                ));
            }
            q = q + 1;
        }
        proof {
            assert(norm(j as int, sp_digits_end(s@, j as int), s@.len() as int) == e as int);
            assert(t@ =~= s@.subrange(pos as int, e as int));
        }
        (Some(t), e)
    } else {
        (None, pos)
    }
}

/// Parses a number literal. A fraction or exponent part makes the value a
/// `Double` carrying the whole matched text; without either, the integer
/// text yields an `Int` exactly when it fits 64 signed bits, and overflow
/// is a number-format failure, never a promotion to float.
pub fn parse_number(s: &Vec<char>, pos: usize) -> (r: (Result<Value, ParseError>, usize))
    requires
        pos <= s@.len(),
    ensures
        ({
            let (sr, sj) = sp_number(s@, pos as int);
            &&& r.1 as int == sj
            &&& pos <= r.1 <= s@.len()
            &&& (r.0 is Ok <==> sr is Ok)
            &&& (r.0 matches Ok(v) ==> v@ == sr->Ok_0)
            &&& (r.0 matches Err(e) ==> e@ == sr->Err_0)
            &&& (r.0 is Ok ==> r.1 > pos)
        }),
{
    let (ri, j0) = parse_integer(s, pos);
    let intx = match ri {
        Err(e) => {
            return (Err(e), j0);
        },
        Ok(t) => t,
    };
    proof {
        assert(norm(pos as int, j0 as int, s@.len() as int) == j0 as int);
    }
    let (frc, j1) = parse_fraction(s, j0);
    proof {
        assert(norm(j0 as int, j1 as int, s@.len() as int) == j1 as int);
    }
    let (exp, j2) = parse_exponent(s, j1);
    if frc.is_some() || exp.is_some() {
        let ghost intx0 = intx@;
        let ghost f0 = match frc { Some(ref f) => f@, None => Seq::<char>::empty() };
        let ghost e0 = match exp { Some(ref e) => e@, None => Seq::<char>::empty() };
        let mut text = intx;
        if let Some(f) = &frc {
            let mut q: usize = 0;
            while q < f.len()
                invariant
                    0 <= q <= f@.len(),
                    f@ == f0,
                    text@ =~= intx0 + f0.subrange(0, q as int),
                decreases f@.len() - q,
            {
                text.push(f[q]);
                proof {
                    assert(f0.subrange(0, q + 1) =~= f0.subrange(0, q as int).push(f0[q as int]));
                }
                q = q + 1;
            }
            proof {
                assert(f0.subrange(0, f0.len() as int) =~= f0);
            }
        }
        proof {
            assert(text@ =~= intx0 + f0);
        }
        let exp_is_ok = match &exp {
            None => true,
            Some(e) => {
                let el = e.len();
                el >= 2 && is_digit(e[el - 1])
            },
        };
        if let Some(e) = &exp {
            let mut q: usize = 0;
            while q < e.len()
                invariant
                    0 <= q <= e@.len(),
                    e@ == e0,
                    text@ =~= intx0 + f0 + e0.subrange(0, q as int),
                decreases e@.len() - q,
            {
                text.push(e[q]);
                proof {
                    assert(e0.subrange(0, q + 1) =~= e0.subrange(0, q as int).push(e0[q as int]));
                }
                q = q + 1;
            }
            proof {
                assert(e0.subrange(0, e0.len() as int) =~= e0);
            }
        }
        proof {
            assert(text@ =~= intx0 + f0 + e0);
        }
        let text_s = chars_to_string(&text);
        if exp_is_ok {
            (Ok(Value::Double(text_s)), j2)
        } else {
            (Err(ParseError::NumberFormat { text: text_s }), j2)
        }
    } else {
        match i64_from_text(&intx) {
            Some(v) => (Ok(Value::Int(v)), j2),
            None => (Err(ParseError::NumberFormat { text: chars_to_string(&intx) }), j2),
        }
    }
}

/// Inserting a key that no entry holds appends the pair at the end.
pub proof fn lemma_obj_insert_absent(m: Seq<(Seq<char>, JsonVal)>, k: Seq<char>, v: JsonVal)
    requires
        forall|i: int| 0 <= i < m.len() ==> (#[trigger] m[i]).0 != k,
    ensures
        obj_insert(m, k, v) == m.push((k, v)),
    decreases m.len(),
{
    if m.len() == 0 {
        assert(obj_insert(m, k, v) =~= m.push((k, v)));
    } else {
        assert(forall|i: int|
            0 <= i < m.drop_first().len() ==> (#[trigger] m.drop_first()[i]).0 != k);
        lemma_obj_insert_absent(m.drop_first(), k, v);
        assert(seq![m[0]] + m.drop_first().push((k, v)) =~= m.push((k, v)));
    }
}

/// Inserting a key whose first occurrence is at `f` replaces that entry
/// in place.
pub proof fn lemma_obj_insert_found(m: Seq<(Seq<char>, JsonVal)>, k: Seq<char>, v: JsonVal, f: int)
    requires
        0 <= f < m.len(),
        m[f].0 == k,
        forall|i: int| 0 <= i < f ==> (#[trigger] m[i]).0 != k,
    ensures
        obj_insert(m, k, v) == m.update(f, (k, v)),
    decreases m.len(),
{
    if f == 0 {
        assert(seq![(k, v)] + m.drop_first() =~= m.update(0, (k, v)));
    } else {
        assert(forall|i: int|
            0 <= i < f - 1 ==> (#[trigger] m.drop_first()[i]).0 != k);
        lemma_obj_insert_found(m.drop_first(), k, v, f - 1);
        assert(seq![m[0]] + m.drop_first().update(f - 1, (k, v)) =~= m.update(f, (k, v)));
    }
}

/// Performs the last-write-wins insertion on an object's entry vector.
fn obj_insert_exec(entries: &mut Vec<(String, Value)>, key: String, v: Value)
    ensures
        entry_views_upto(*final(entries), final(entries)@.len() as int) == obj_insert(
            entry_views_upto(*old(entries), old(entries)@.len() as int),
            key@,
            v@,
        ),
{
    let ghost m0 = entry_views_upto(*entries, entries@.len() as int);
    proof {
        lemma_entry_views_upto_index(*entries, entries@.len() as int);
    }
    let mut idx: usize = 0;
    while idx < entries.len()
        invariant
            0 <= idx <= entries@.len(),
            *entries == *old(entries),
            m0 == entry_views_upto(*entries, entries@.len() as int),
            m0.len() == entries@.len(),
            forall|i: int| 0 <= i < m0.len() ==> #[trigger] m0[i] == (entries@[i].0@, entries@[i].1.view_of()),
            forall|i: int| 0 <= i < idx ==> (#[trigger] m0[i]).0 != key@,
        decreases entries@.len() - idx,
    {
        if entries[idx].0 == key {
            let ghost before = *entries;
            entries.set(idx, (key, v));
            proof {
                lemma_obj_insert_found(m0, key@, v@, idx as int);
                lemma_entry_views_upto_index(*entries, entries@.len() as int);
                assert(entry_views_upto(*entries, entries@.len() as int) =~= m0.update(
                    idx as int,
                    (key@, v@),
                ));
            }
            return;
        }
        idx = idx + 1;
    }
    entries.push((key, v));
    proof {
        lemma_obj_insert_absent(m0, key@, v@);
        lemma_entry_views_upto_index(*entries, entries@.len() as int);
        assert(entry_views_upto(*entries, entries@.len() as int) =~= m0.push((key@, v@)));
    }
}

/// Holds between the whole remaining item-list parse and the parse from
/// the current position, with `acc` the items already parsed.
pub open spec fn items_cont(
    full: (Result<Seq<JsonVal>, JsonErr>, int),
    cur: (Result<Seq<JsonVal>, JsonErr>, int),
    acc: Seq<JsonVal>,
) -> bool {
    match cur.0 {
        Ok(rest) => full.0 == Ok::<Seq<JsonVal>, JsonErr>(acc + rest) && full.1 == cur.1,
        Err(e) => full.0 == Err::<Seq<JsonVal>, JsonErr>(e) && full.1 == cur.1,
    }
}

/// Holds between the whole remaining member-list parse and the parse from
/// the current position, with `acc` the pairs already parsed.
pub open spec fn pairs_cont(
    full: (Result<Seq<(Seq<char>, JsonVal)>, JsonErr>, int),
    cur: (Result<Seq<(Seq<char>, JsonVal)>, JsonErr>, int),
    acc: Seq<(Seq<char>, JsonVal)>,
) -> bool {
    match cur.0 {
        Ok(rest) => full.0 == Ok::<Seq<(Seq<char>, JsonVal)>, JsonErr>(acc + rest) && full.1
            == cur.1,
        Err(e) => full.0 == Err::<Seq<(Seq<char>, JsonVal)>, JsonErr>(e) && full.1 == cur.1,
    }
}

/// The value dispatcher: routes on one character of lookahead; anything
/// that opens no object, array, string or keyword goes to the number
/// parser; an exhausted stream is a premature end.
pub fn parse_value(s: &Vec<char>, pos: usize) -> (r: (Result<Value, ParseError>, usize))
    requires
        pos <= s@.len(),
    ensures
        ({
            let (sr, sj) = sp_value(s@, pos as int);
            &&& r.1 as int == sj
            &&& pos <= r.1 <= s@.len()
            &&& (r.0 is Ok <==> sr is Ok)
            &&& (r.0 matches Ok(v) ==> v@ == sr->Ok_0)
            &&& (r.0 matches Err(e) ==> e@ == sr->Err_0)
            &&& (r.0 is Ok ==> r.1 > pos)
        }),
    decreases s@.len() - pos, 2int,
{
    if pos >= s.len() {
        return (Err(ParseError::PrematureEnd), pos);
    }
    let c = s[pos];
    if c == '{' {
        parse_object(s, pos)
    } else if c == '[' {
        parse_array(s, pos)
    } else if c == '"' {
        parse_string(s, pos)
    } else if c == 't' {
        parse_true(s, pos)
    } else if c == 'f' {
        parse_false(s, pos)
    } else if c == 'n' {
        parse_null(s, pos)
    } else {
        parse_number(s, pos)
    }
}

/// A top-level element: leading whitespace, one value, trailing
/// whitespace.
pub fn parse_element(s: &Vec<char>, pos: usize) -> (r: (Result<Value, ParseError>, usize))
    requires
        pos <= s@.len(),
    ensures
        ({
            let (sr, sj) = sp_element(s@, pos as int);
            &&& r.1 as int == sj
            &&& pos <= r.1 <= s@.len()
            &&& (r.0 is Ok <==> sr is Ok)
            &&& (r.0 matches Ok(v) ==> v@ == sr->Ok_0)
            &&& (r.0 matches Err(e) ==> e@ == sr->Err_0)
            &&& (r.0 is Ok ==> r.1 > pos)
        }),
    decreases s@.len() - pos, 3int,
{
    let j = skip_ws(s, pos);
    proof {
        assert(norm(pos as int, sp_ws(s@, pos as int), s@.len() as int) == j as int);
    }
    let (rv, k) = parse_value(s, j);
    match rv {
        Err(e) => (Err(e), k),
        Ok(v) => {
            proof {
                assert(norm(j as int, k as int, s@.len() as int) == k as int);
            }
            let k2 = skip_ws(s, k);
            proof {
                assert(norm(k as int, sp_ws(s@, k as int), s@.len() as int) == k2 as int);
            }
            (Ok(v), k2)
        },
    }
}

/// An array: the opening bracket, either an immediate closing bracket for
/// the empty array or the comma-separated elements, and the required
/// closing bracket. A trailing comma makes the loop parse once more and
/// fail there.
pub fn parse_array(s: &Vec<char>, pos: usize) -> (r: (Result<Value, ParseError>, usize))
    requires
        pos <= s@.len(),
    ensures
        ({
            let (sr, sj) = sp_array(s@, pos as int);
            &&& r.1 as int == sj
            &&& pos <= r.1 <= s@.len()
            &&& (r.0 is Ok <==> sr is Ok)
            &&& (r.0 matches Ok(v) ==> v@ == sr->Ok_0)
            &&& (r.0 matches Err(e) ==> e@ == sr->Err_0)
            &&& (r.0 is Ok ==> r.1 > pos)
        }),
    decreases s@.len() - pos, 1int,
{
    let (r0, j0) = expect(s, pos, '[');
    if let Err(e) = r0 {
        return (Err(e), j0);
    }
    let w = skip_ws(s, j0);
    proof {
        assert(norm(pos as int, j0 as int, s@.len() as int) == j0 as int);
        assert(norm(j0 as int, sp_ws(s@, j0 as int), s@.len() as int) == w as int);
    }
    if w < s.len() && s[w] == ']' {
        let items: Vec<Value> = Vec::new();
        proof {
            assert(views_upto(items, 0) =~= Seq::<JsonVal>::empty());
        }
        return (Ok(Value::Array(items)), w + 1);
    }
    let mut items: Vec<Value> = Vec::new();
    let mut p = w;
    proof {
        assert(views_upto(items, 0) =~= Seq::<JsonVal>::empty());
        match sp_items(s@, p as int).0 {
            Ok(rest) => {
                assert(Seq::<JsonVal>::empty() + rest =~= rest);
            },
            Err(e) => {},
        }
    }
    loop
        invariant
            pos < s@.len(),
            s@[pos as int] == '[',
            j0 == pos + 1,
            j0 <= w <= s@.len(),
            w as int == sp_ws(s@, j0 as int),
            !(w < s@.len() && s@[w as int] == ']'),
            w <= p <= s@.len(),
            p > pos,
            items_cont(
                sp_items(s@, w as int),
                sp_items(s@, p as int),
                views_upto(items, items@.len() as int),
            ),
        decreases s@.len() - p,
    {
        let ghost acc0 = views_upto(items, items@.len() as int);
        let (re, q0) = parse_element(s, p);
        match re {
            Err(e) => {
                return (Err(e), q0);
            },
            Ok(v) => {
                let ghost gv = v@;
                proof {
                    assert(norm(p as int, q0 as int, s@.len() as int) == q0 as int);
                    lemma_views_upto_index(items, items@.len() as int);
                }
                items.push(v);
                proof {
                    lemma_views_upto_index(items, items@.len() as int);
                    assert(views_upto(items, items@.len() as int) =~= acc0.push(gv));
                }
                if q0 < s.len() && s[q0] == ',' {
                    proof {
                        match sp_items(s@, q0 + 1).0 {
                            Ok(rest) => {
                                assert(acc0 + (seq![gv] + rest) =~= acc0.push(gv) + rest);
                            },
                            Err(e) => {},
                        }
                    }
                    p = q0 + 1;
                } else {
                    proof {
                        assert(acc0 + seq![gv] =~= acc0.push(gv));
                    }
                    let (r2, k2) = expect(s, q0, ']');
                    match r2 {
                        Err(e) => {
                            return (Err(e), k2);
                        },
                        Ok(u) => {
                            return (Ok(Value::Array(items)), k2);
                        },
                    }
                }
            },
        }
    }
}

/// One `key: value` pair of an object: a string-literal key, the colon,
/// and a full element as the value.
pub fn parse_key_value(s: &Vec<char>, pos: usize) -> (r: (Result<(Value, Value), ParseError>, usize))
    requires
        pos <= s@.len(),
    ensures
        ({
            let (sr, sj) = sp_key_value(s@, pos as int);
            &&& r.1 as int == sj
            &&& pos <= r.1 <= s@.len()
            &&& (r.0 is Ok <==> sr is Ok)
            &&& (r.0 matches Ok(p) ==> p.0@ == sr->Ok_0.0 && p.1@ == sr->Ok_0.1)
            &&& (r.0 matches Err(e) ==> e@ == sr->Err_0)
        }),
    decreases s@.len() - pos, 2int,
{
    let (rs, j0) = parse_string(s, pos);
    let kv = match rs {
        Err(e) => {
            return (Err(e), j0);
        },
        Ok(k) => k,
    };
    proof {
        assert(norm(pos as int, j0 as int, s@.len() as int) == j0 as int);
    }
    let w = skip_ws(s, j0);
    proof {
        assert(norm(j0 as int, sp_ws(s@, j0 as int), s@.len() as int) == w as int);
    }
    let (rc, c0) = expect(s, w, ':');
    if let Err(e) = rc {
        return (Err(e), c0);
    }
    proof {
        assert(norm(w as int, c0 as int, s@.len() as int) == c0 as int);
    }
    let w2 = skip_ws(s, c0);
    proof {
        assert(norm(c0 as int, sp_ws(s@, c0 as int), s@.len() as int) == w2 as int);
    }
    let (re, k) = parse_element(s, w2);
    match re {
        Err(e) => (Err(e), k),
        Ok(v) => (Ok((kv, v)), k),
    }
}

/// An object: the opening brace, either an immediate closing brace for
/// the empty object or the comma-separated members inserted with
/// last-write-wins, and the required closing brace.
pub fn parse_object(s: &Vec<char>, pos: usize) -> (r: (Result<Value, ParseError>, usize))
    requires
        pos <= s@.len(),
    ensures
        ({
            let (sr, sj) = sp_object(s@, pos as int);
            &&& r.1 as int == sj
            &&& pos <= r.1 <= s@.len()
            &&& (r.0 is Ok <==> sr is Ok)
            &&& (r.0 matches Ok(v) ==> v@ == sr->Ok_0)
            &&& (r.0 matches Err(e) ==> e@ == sr->Err_0)
            &&& (r.0 is Ok ==> r.1 > pos)
        }),
    decreases s@.len() - pos, 1int,
{
    let (r0, j0) = expect(s, pos, '{');
    if let Err(e) = r0 {
        return (Err(e), j0);
    }
    let w = skip_ws(s, j0);
    proof {
        assert(norm(pos as int, j0 as int, s@.len() as int) == j0 as int);
        assert(norm(j0 as int, sp_ws(s@, j0 as int), s@.len() as int) == w as int);
    }
    if w < s.len() && s[w] == '}' {
        let entries: Vec<(String, Value)> = Vec::new();
        proof {
            assert(entry_views_upto(entries, 0) =~= Seq::<(Seq<char>, JsonVal)>::empty());
            assert(obj_of_pairs(Seq::<(Seq<char>, JsonVal)>::empty()) =~= Seq::<
                (Seq<char>, JsonVal),
            >::empty());
        }
        return (Ok(Value::Object(entries)), w + 1);
    }
    let mut entries: Vec<(String, Value)> = Vec::new();
    let ghost mut gpairs: Seq<(Seq<char>, JsonVal)> = Seq::empty();
    let mut p = w;
    proof {
        assert(entry_views_upto(entries, 0) =~= Seq::<(Seq<char>, JsonVal)>::empty());
        assert(obj_of_pairs(Seq::<(Seq<char>, JsonVal)>::empty()) =~= Seq::<
            (Seq<char>, JsonVal),
        >::empty());
        match sp_members(s@, p as int).0 {
            Ok(rest) => {
                assert(Seq::<(Seq<char>, JsonVal)>::empty() + rest =~= rest);
            },
            Err(e) => {},
        }
    }
    loop
        invariant
            pos < s@.len(),
            s@[pos as int] == '{',
            j0 == pos + 1,
            j0 <= w <= s@.len(),
            w as int == sp_ws(s@, j0 as int),
            !(w < s@.len() && s@[w as int] == '}'),
            w <= p <= s@.len(),
            p > pos,
            entry_views_upto(entries, entries@.len() as int) == obj_of_pairs(gpairs),
            pairs_cont(sp_members(s@, w as int), sp_members(s@, p as int), gpairs),
        decreases s@.len() - p,
    {
        let q = skip_ws(s, p);
        proof {
            assert(norm(p as int, sp_ws(s@, p as int), s@.len() as int) == q as int);
        }
        let (rkv, q0) = parse_key_value(s, q);
        match rkv {
            Err(e) => {
                return (Err(e), q0);
            },
            Ok(kv) => {
                proof {
                    assert(norm(p as int, q0 as int, s@.len() as int) == q0 as int);
                }
                let (kval, vval) = kv;
                let ghost gpair: Seq<(Seq<char>, JsonVal)> = match kval@ {
                    JsonVal::Str(t) => seq![(t, vval@)],
                    _ => Seq::empty(),
                };
                let ghost gold = gpairs;
                match kval {
                    Value::Str(kstr) => {
                        let ghost gk = kstr@;
                        let ghost gval = vval@;
                        obj_insert_exec(&mut entries, kstr, vval);
                        proof {
                            let gnew = gold + gpair;
                            assert(gnew.drop_last() =~= gold);
                            assert(gnew.last() == (gk, gval));
                            gpairs = gnew;
                        }
                    },
                    _ => {
                        proof {
                            gpairs = gold + gpair;
                            assert(gold + Seq::<(Seq<char>, JsonVal)>::empty() =~= gold);
                        }
                    },
                }
                if q0 < s.len() && s[q0] == ',' {
                    proof {
                        match sp_members(s@, q0 + 1).0 {
                            Ok(rest) => {
                                assert(gold + (gpair + rest) =~= (gold + gpair) + rest);
                            },
                            Err(e) => {},
                        }
                    }
                    p = q0 + 1;
                } else {
                    let (r2, k2) = expect(s, q0, '}');
                    match r2 {
                        Err(e) => {
                            return (Err(e), k2);
                        },
                        Ok(u) => {
                            return (Ok(Value::Object(entries)), k2);
                        },
                    }
                }
            },
        }
    }
}

/// Parses one complete document from a character buffer: a single
/// top-level element. Trailing input after a complete value is ignored.
pub fn parse_chars(s: &Vec<char>) -> (r: Result<Value, ParseError>)
    ensures
        ({
            let sr = sp_parse(s@);
            &&& (r is Ok <==> sr is Ok)
            &&& (r matches Ok(v) ==> v@ == sr->Ok_0)
            &&& (r matches Err(e) ==> e@ == sr->Err_0)
        }),
{
    let (r, _end) = parse_element(s, 0);
    r
}

/// The characters of a string slice, as a vector.
pub fn str_to_chars(s: &str) -> (r: Vec<char>)
    ensures
        r@ == s@,
{
    let n = s.unicode_len();
    let mut out: Vec<char> = Vec::new();
    let mut k: usize = 0;
    while k < n
        invariant
            0 <= k <= n,
            n as int == s@.len(),
            out@ =~= s@.subrange(0, k as int),
        decreases n - k,
    {
        let c = s.get_char(k);
        out.push(c);
        proof {
            assert(s@.subrange(0, k + 1) =~= s@.subrange(0, k as int).push(s@[k as int]));
        }
        k = k + 1;
    }
    proof {
        assert(s@.subrange(0, s@.len() as int) =~= s@);
    }
    out
}

/// Parses one complete JSON document: a single top-level element.
/// Trailing input after a syntactically complete value is ignored, and
/// the first failure anywhere aborts the whole parse.
pub fn parse(json: &str) -> (r: Result<Value, ParseError>)
    ensures
        ({
            let sr = sp_parse(json@);
            &&& (r is Ok <==> sr is Ok)
            &&& (r matches Ok(v) ==> v@ == sr->Ok_0)
            &&& (r matches Err(e) ==> e@ == sr->Err_0)
        }),
{
    let chars = str_to_chars(json);
    parse_chars(&chars)
}

} // verus!
