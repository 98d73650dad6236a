//! The round-trip law: parsing the printed text of a value yields the
//! value back, for every value the grammar can construct — that is, every
//! value free of doubles (whose literal text need not re-parse as the
//! same variant) and of string content that would need escaping.

use vstd::prelude::*;
use crate::grammar::{
    int_text_val, is_digit_char, is_ws_char, keyword_chars, norm, obj_of_pairs, sp_digits_end,
    sp_element, sp_items, sp_key_value, sp_keyword_from, sp_members, sp_parse, sp_string,
    sp_string_body, sp_value, sp_ws,
};
use crate::grammar::digits_val;
use crate::numbers::u_dec;
use crate::parser::lemma_obj_insert_absent;
use crate::printer::{sp_print, sp_print_items, sp_print_member, sp_print_members};
use crate::value::{JsonErr, JsonVal, Keyword};

verus! {

/// String content that serializes to valid JSON verbatim: free of the
/// quote and the backslash.
pub open spec fn text_ok(t: Seq<char>) -> bool {
    forall|k: int| 0 <= k < t.len() ==> (#[trigger] t[k]) != '"' && t[k] != '\\'
}

/// Pairwise distinct object keys.
pub open spec fn distinct_keys(ms: Seq<(Seq<char>, JsonVal)>) -> bool {
    forall|a: int, b: int| 0 <= a < b < ms.len() ==> (#[trigger] ms[a]).0 != (#[trigger] ms[b]).0
}

/// A value the grammar can construct, whose printed text parses back to
/// it: no doubles, integers within 64 signed bits, string content and
/// keys needing no escaping, keys pairwise distinct.
pub open spec fn printable(v: JsonVal) -> bool
    decreases v, 0int, 0int,
{
    match v {
        JsonVal::Null => true,
        JsonVal::Bool(b) => true,
        JsonVal::Int(n) => i64::MIN as int <= n <= i64::MAX as int,
        JsonVal::Double(t) => false,
        JsonVal::Str(t) => text_ok(t),
        JsonVal::Array(vs) => printable_list(vs, vs.len() as int),
        JsonVal::Object(ms) => printable_members(ms, ms.len() as int) && distinct_keys(ms),
    }
}

/// The first `k` items are printable.
pub open spec fn printable_list(vs: Seq<JsonVal>, k: int) -> bool
    decreases vs, 1int, k,
        when 0 <= k <= vs.len()
{
    k <= 0 || (printable_list(vs, k - 1) && printable(vs[k - 1]))
}

/// The first `k` members have printable keys and values.
pub open spec fn printable_members(ms: Seq<(Seq<char>, JsonVal)>, k: int) -> bool
    decreases ms, 1int, k,
        when 0 <= k <= ms.len()
{
    k <= 0 || (printable_members(ms, k - 1) && text_ok(ms[k - 1].0) && printable(ms[k - 1].1))
}

/// Each item of a printable list is printable.
proof fn lemma_printable_list_elem(vs: Seq<JsonVal>, k: int, j: int)
    requires
        0 <= j < k <= vs.len(),
        printable_list(vs, k),
    ensures
        printable(vs[j]),
    decreases k,
{
    if j < k - 1 {
        lemma_printable_list_elem(vs, k - 1, j);
    }
}

/// Each member of a printable member list is printable.
proof fn lemma_printable_members_elem(ms: Seq<(Seq<char>, JsonVal)>, k: int, j: int)
    requires
        0 <= j < k <= ms.len(),
        printable_members(ms, k),
    ensures
        text_ok(ms[j].0),
        printable(ms[j].1),
    decreases k,
{
    if j < k - 1 {
        lemma_printable_members_elem(ms, k - 1, j);
    }
}

/// A character that can begin the printed text of a printable value.
pub open spec fn opens_value(c: char) -> bool {
    c == '{' || c == '[' || c == '"' || c == 't' || c == 'f' || c == 'n' || c == '-'
        || is_digit_char(c)
}

/// A character that ends a number literal: it extends neither the digit
/// runs nor the fraction or exponent parts.
pub open spec fn number_stopper(c: char) -> bool {
    !is_digit_char(c) && c != '.' && c != 'e' && c != 'E'
}

/// A matching subrange gives the characters pointwise.
proof fn lemma_subrange_chars(s: Seq<char>, i: int, t: Seq<char>)
    requires
        0 <= i,
        i + t.len() <= s.len(),
        s.subrange(i, i + t.len()) == t,
    ensures
        forall|j: int| 0 <= j < t.len() ==> s[i + j] == #[trigger] t[j],
{
    assert forall|j: int| 0 <= j < t.len() implies s[i + j] == #[trigger] t[j] by {
        assert(t[j] == s.subrange(i, i + t.len())[j]);
    }
}

/// Scanning a keyword over its own characters succeeds and consumes them.
proof fn lemma_keyword_scan(s: Seq<char>, i: int, lit: Keyword, k: int)
    requires
        0 <= k <= keyword_chars(lit).len(),
        0 <= i,
        i + keyword_chars(lit).len() - k <= s.len(),
        forall|j: int|
            0 <= j < keyword_chars(lit).len() - k ==> #[trigger] s[i + j] == keyword_chars(
                lit,
            )[k + j],
    ensures
        sp_keyword_from(s, i, lit, k) == (
            Ok::<(), JsonErr>(()),
            i + keyword_chars(lit).len() - k,
        ),
    decreases keyword_chars(lit).len() - k,
{
    let kw = keyword_chars(lit);
    if k < kw.len() {
        assert(s[i + 0] == kw[k + 0]);
        assert forall|j: int| 0 <= j < kw.len() - (k + 1) implies #[trigger] s[i + 1 + j] == kw[k
            + 1 + j] by {
            assert(s[i + (j + 1)] == kw[k + (j + 1)]);
        }
        lemma_keyword_scan(s, i + 1, lit, k + 1);
    }
}

/// Every character of a decimal rendering is a digit.
proof fn lemma_u_dec_digits(m: int)
    requires
        m >= 0,
    ensures
        u_dec(m).len() >= 1,
        forall|k: int| 0 <= k < u_dec(m).len() ==> is_digit_char(#[trigger] u_dec(m)[k]),
    decreases m,
{
    if m >= 10 {
        lemma_u_dec_digits(m / 10);
    }
}

/// The code point of a digit character is the digit plus forty-eight.
proof fn lemma_digit_char_val(d: int)
    requires
        0 <= d < 10,
    ensures
        crate::numbers::digit_char(d) as u32 == 48 + d,
{
}

/// The digit value of a decimal rendering is the rendered number.
proof fn lemma_dec_val_round(m: int)
    requires
        m >= 0,
    ensures
        digits_val(u_dec(m)) == m,
    decreases m,
{
    lemma_digit_char_val(m % 10);
    assert(digits_val(Seq::<char>::empty()) == 0);
    if m < 10 {
        assert(u_dec(m).drop_last() =~= Seq::<char>::empty());
        assert(u_dec(m).last() == crate::numbers::digit_char(m));
    } else {
        lemma_dec_val_round(m / 10);
        assert(u_dec(m).drop_last() =~= u_dec(m / 10));
    }
}

/// A digit run bounded by a non-digit (or the end) scans to its bound.
proof fn lemma_digits_scan(s: Seq<char>, j: int, e: int)
    requires
        0 <= j <= e <= s.len(),
        forall|k: int| j <= k < e ==> is_digit_char(#[trigger] s[k]),
        e < s.len() ==> !is_digit_char(s[e]),
    ensures
        sp_digits_end(s, j) == e,
    decreases e - j,
{
    if j < e {
        lemma_digits_scan(s, j + 1, e);
    }
}

/// A string body free of quotes and backslashes, bounded by a quote,
/// scans to that quote and yields exactly its characters.
proof fn lemma_string_body_scan(s: Seq<char>, i: int, t: Seq<char>)
    requires
        0 <= i,
        i + t.len() < s.len(),
        s.subrange(i, i + t.len()) == t,
        s[i + t.len()] == '"',
        text_ok(t),
    ensures
        sp_string_body(s, i) == (Ok::<Seq<char>, JsonErr>(t), i + t.len()),
    decreases t.len(),
{
    lemma_subrange_chars(s, i, t);
    if t.len() == 0 {
        assert(s[i] == '"');
        assert(t =~= Seq::<char>::empty());
    } else {
        assert(s[i] == t[0]);
        assert(t[0] != '"' && t[0] != '\\');
        let t2 = t.drop_first();
        assert(s.subrange(i + 1, i + 1 + t2.len()) =~= t2);
        lemma_string_body_scan(s, i + 1, t2);
        assert(seq![s[i]] + t2 =~= t);
    }
}

/// The printed text of a printable value is nonempty and begins with a
/// character that the dispatcher routes to that value's parser.
proof fn lemma_print_opens(v: JsonVal)
    requires
        printable(v),
    ensures
        sp_print(v).len() > 0,
        opens_value(sp_print(v)[0]),
    decreases v,
{
    match v {
        JsonVal::Int(n) => {
            if n >= 0 {
                lemma_u_dec_digits(n);
            }
        },
        _ => {},
    }
}

/// The printed items of a list, from item `idx` on.
pub open spec fn items_text_from(vs: Seq<JsonVal>, idx: int) -> Seq<char>
    decreases vs.len() - idx,
        when 0 <= idx <= vs.len()
{
    if idx >= vs.len() {
        Seq::empty()
    } else if idx == vs.len() - 1 {
        sp_print(vs[idx])
    } else {
        sp_print(vs[idx]) + seq![','] + items_text_from(vs, idx + 1)
    }
}

/// The printed members of an object, from member `idx` on.
pub open spec fn members_text_from(ms: Seq<(Seq<char>, JsonVal)>, idx: int) -> Seq<char>
    decreases ms.len() - idx,
        when 0 <= idx <= ms.len()
{
    if idx >= ms.len() {
        Seq::empty()
    } else if idx == ms.len() - 1 {
        sp_print_member(ms[idx])
    } else {
        sp_print_member(ms[idx]) + seq![','] + members_text_from(ms, idx + 1)
    }
}

/// The prefix-joined and suffix-joined item texts agree.
proof fn lemma_items_text_eq(vs: Seq<JsonVal>, k: int)
    requires
        1 <= k <= vs.len(),
    ensures
        k < vs.len() ==> sp_print_items(vs, vs.len() as int) == sp_print_items(vs, k)
            + seq![','] + items_text_from(vs, k),
        k == vs.len() ==> sp_print_items(vs, vs.len() as int) == sp_print_items(vs, k),
    decreases vs.len() - k,
{
    if k < vs.len() {
        lemma_items_text_eq(vs, k + 1);
        if k + 1 < vs.len() {
            assert(sp_print_items(vs, k + 1) == sp_print_items(vs, k) + seq![','] + sp_print(
                vs[k],
            ));
            assert((sp_print_items(vs, k) + seq![','] + sp_print(vs[k])) + seq![',']
                + items_text_from(vs, k + 1) =~= sp_print_items(vs, k) + seq![','] + (sp_print(
                vs[k],
            ) + seq![','] + items_text_from(vs, k + 1)));
        } else {
            assert(sp_print_items(vs, vs.len() as int) == sp_print_items(vs, k) + seq![',']
                + sp_print(vs[k]));
            assert(items_text_from(vs, k) == sp_print(vs[k]));
        }
    }
}

/// For a nonempty list the whole prefix join is the suffix join from the
/// first item.
proof fn lemma_items_text_zero(vs: Seq<JsonVal>)
    requires
        vs.len() >= 1,
    ensures
        sp_print_items(vs, vs.len() as int) == items_text_from(vs, 0),
{
    lemma_items_text_eq(vs, 1);
    if vs.len() > 1 {
        assert(sp_print_items(vs, 1) == sp_print(vs[0]));
        assert(sp_print(vs[0]) + seq![','] + items_text_from(vs, 1) =~= sp_print_items(vs, 1)
            + seq![','] + items_text_from(vs, 1));
    }
}

/// The prefix-joined and suffix-joined member texts agree.
proof fn lemma_members_text_eq(ms: Seq<(Seq<char>, JsonVal)>, k: int)
    requires
        1 <= k <= ms.len(),
    ensures
        k < ms.len() ==> sp_print_members(ms, ms.len() as int) == sp_print_members(ms, k)
            + seq![','] + members_text_from(ms, k),
        k == ms.len() ==> sp_print_members(ms, ms.len() as int) == sp_print_members(ms, k),
    decreases ms.len() - k,
{
    if k < ms.len() {
        lemma_members_text_eq(ms, k + 1);
        if k + 1 < ms.len() {
            assert(sp_print_members(ms, k + 1) == sp_print_members(ms, k) + seq![',']
                + sp_print_member(ms[k]));
            assert((sp_print_members(ms, k) + seq![','] + sp_print_member(ms[k])) + seq![',']
                + members_text_from(ms, k + 1) =~= sp_print_members(ms, k) + seq![','] + (
            sp_print_member(ms[k]) + seq![','] + members_text_from(ms, k + 1)));
        } else {
            assert(members_text_from(ms, k) == sp_print_member(ms[k]));
        }
    }
}

/// For a nonempty object the whole prefix join is the suffix join from
/// the first member.
proof fn lemma_members_text_zero(ms: Seq<(Seq<char>, JsonVal)>)
    requires
        ms.len() >= 1,
    ensures
        sp_print_members(ms, ms.len() as int) == members_text_from(ms, 0),
{
    lemma_members_text_eq(ms, 1);
    if ms.len() > 1 {
        assert(sp_print_members(ms, 1) == sp_print_member(ms[0]));
        assert(sp_print_member(ms[0]) + seq![','] + members_text_from(ms, 1)
            =~= sp_print_members(ms, 1) + seq![','] + members_text_from(ms, 1));
    }
}

/// Folding a pair list with pairwise distinct keys reproduces the list.
proof fn lemma_obj_of_pairs_distinct(ps: Seq<(Seq<char>, JsonVal)>)
    requires
        distinct_keys(ps),
    ensures
        obj_of_pairs(ps) == ps,
    decreases ps.len(),
{
    if ps.len() > 0 {
        let head = ps.drop_last();
        assert(distinct_keys(head)) by {
            assert(forall|a: int, b: int|
                0 <= a < b < head.len() ==> (#[trigger] head[a]).0 != (#[trigger] head[b]).0);
        }
        lemma_obj_of_pairs_distinct(head);
        assert(forall|i: int| 0 <= i < head.len() ==> (#[trigger] head[i]).0 != ps.last().0);
        lemma_obj_insert_absent(head, ps.last().0, ps.last().1);
        assert(head.push(ps.last()) =~= ps);
        assert((ps.last().0, ps.last().1) == ps.last());
    }
}

/// An opening character is not whitespace.
proof fn lemma_opens_not_ws(c: char)
    ensures
        opens_value(c) ==> !is_ws_char(c),
{
}

/// Parsing at the printed text of a printable value yields that value
/// and consumes exactly the printed text. Any directly following
/// character may not extend a number literal.
#[verifier::rlimit(100)]
pub proof fn lemma_value_print(v: JsonVal, s: Seq<char>, i: int)
    requires
        printable(v),
        0 <= i,
        i + sp_print(v).len() <= s.len(),
        s.subrange(i, i + sp_print(v).len()) == sp_print(v),
        i + sp_print(v).len() < s.len() ==> number_stopper(s[i + sp_print(v).len()]),
    ensures
        sp_value(s, i) == (Ok::<JsonVal, JsonErr>(v), i + sp_print(v).len()),
    decreases v, 0int, 0int,
{
    let t = sp_print(v);
    lemma_subrange_chars(s, i, t);
    lemma_print_opens(v);
    assert(s[i + 0] == t[0]);
    match v {
        JsonVal::Null => {
            assert(t == keyword_chars(Keyword::Null));
            assert forall|j: int| 0 <= j < 4 implies #[trigger] s[i + j] == keyword_chars(
                Keyword::Null,
            )[0 + j] by {
                assert(s[i + j] == t[j]);
            }
            lemma_keyword_scan(s, i, Keyword::Null, 0);
        },
        JsonVal::Bool(b) => {
            if b {
                assert(t == keyword_chars(Keyword::True));
                assert forall|j: int| 0 <= j < 4 implies #[trigger] s[i + j] == keyword_chars(
                    Keyword::True,
                )[0 + j] by {
                    assert(s[i + j] == t[j]);
                }
                lemma_keyword_scan(s, i, Keyword::True, 0);
            } else {
                assert(t == keyword_chars(Keyword::False));
                assert forall|j: int| 0 <= j < 5 implies #[trigger] s[i + j] == keyword_chars(
                    Keyword::False,
                )[0 + j] by {
                    assert(s[i + j] == t[j]);
                }
                lemma_keyword_scan(s, i, Keyword::False, 0);
            }
        },
        JsonVal::Int(n) => {
            let mag = if n < 0 { -n } else { n };
            lemma_u_dec_digits(mag);
            lemma_dec_val_round(mag);
            let d = u_dec(mag);
            let e = i + t.len();
            if n < 0 {
                assert(t == seq!['-'] + d);
                assert(s[i] == '-');
                assert forall|k: int| i + 1 <= k < e implies is_digit_char(#[trigger] s[k]) by {
                    assert(s[k] == t[k - i]);
                    assert(t[k - i] == d[k - i - 1]);
                }
                lemma_digits_scan(s, i + 1, e);
                assert(norm(i + 1, sp_digits_end(s, i + 1), s.len() as int) == e);
                assert(s[i + 1] == t[1]);
                assert(t[1] == d[0]);
                let text = s.subrange(i, e);
                assert(text == t);
                assert(t.drop_first() =~= d);
                assert(int_text_val(t) == -mag);
            } else {
                assert(t == d);
                assert(is_digit_char(s[i]));
                assert forall|k: int| i <= k < e implies is_digit_char(#[trigger] s[k]) by {
                    assert(s[k] == t[k - i]);
                }
                lemma_digits_scan(s, i, e);
                assert(norm(i as int, sp_digits_end(s, i), s.len() as int) == e);
                let text = s.subrange(i, e);
                assert(text == t);
                assert(t[0] != '-');
                assert(int_text_val(t) == mag);
            }
        },
        JsonVal::Double(dt) => {
            assert(false);
        },
        JsonVal::Str(t0) => {
            assert(t == seq!['"'] + t0 + seq!['"']);
            assert(s[i] == '"');
            assert forall|j: int| 0 <= j < t0.len() implies #[trigger] s.subrange(
                i + 1,
                i + 1 + t0.len(),
            )[j] == t0[j] by {
                assert(s[i + (1 + j)] == t[1 + j]);
                assert(t[1 + j] == t0[j]);
            }
            assert(s.subrange(i + 1, i + 1 + t0.len()) =~= t0);
            assert(s[i + (1 + t0.len())] == t[1 + t0.len() as int]);
            assert(t[1 + t0.len() as int] == '"');
            lemma_string_body_scan(s, i + 1, t0);
            assert(norm(i, i + 1, s.len() as int) == i + 1);
        },
        JsonVal::Array(vs) => {
            assert(s[i] == '[');
            assert(norm(i, i + 1, s.len() as int) == i + 1);
            if vs.len() == 0 {
                assert(t =~= seq!['[', ']']);
                assert(s[i + 1] == t[1]);
                assert(s[i + 1] == ']');
                assert(sp_ws(s, i + 1) == i + 1);
                assert(norm(i + 1, i + 1, s.len() as int) == i + 1);
                assert(JsonVal::Array(Seq::empty()) == v) by {
                    assert(vs =~= Seq::<JsonVal>::empty());
                }
            } else {
                lemma_items_text_zero(vs);
                let body = items_text_from(vs, 0);
                assert(t == seq!['['] + sp_print_items(vs, vs.len() as int) + seq![']']);
                assert(t.len() == body.len() + 2);
                lemma_printable_list_elem(vs, vs.len() as int, 0);
                lemma_print_opens(vs[0]);
                assert forall|j: int| 0 <= j < body.len() implies #[trigger] s.subrange(
                    i + 1,
                    i + 1 + body.len(),
                )[j] == body[j] by {
                    assert(s[i + (1 + j)] == t[1 + j]);
                    assert(t[1 + j] == body[j]);
                }
                assert(s.subrange(i + 1, i + 1 + body.len()) =~= body);
                assert(s[i + (1 + body.len())] == t[1 + body.len() as int]);
                assert(s[i + 1 + body.len()] == ']');
                assert(body[0] == sp_print(vs[0])[0]);
                assert(s[i + 1] == body[0]);
                lemma_opens_not_ws(s[i + 1]);
                assert(sp_ws(s, i + 1) == i + 1);
                assert(norm(i + 1, i + 1, s.len() as int) == i + 1);
                assert(s[i + 1] != ']');
                lemma_items_scan(vs, 0, s, i + 1);
                assert(vs.subrange(0, vs.len() as int) =~= vs);
            }
        },
        JsonVal::Object(ms) => {
            assert(s[i] == '{');
            assert(norm(i, i + 1, s.len() as int) == i + 1);
            if ms.len() == 0 {
                assert(t =~= seq!['{', '}']);
                assert(s[i + 1] == t[1]);
                assert(s[i + 1] == '}');
                assert(sp_ws(s, i + 1) == i + 1);
                assert(norm(i + 1, i + 1, s.len() as int) == i + 1);
                assert(obj_of_pairs(Seq::<(Seq<char>, JsonVal)>::empty()) =~= Seq::<
                    (Seq<char>, JsonVal),
                >::empty());
                assert(JsonVal::Object(Seq::empty()) == v) by {
                    assert(ms =~= Seq::<(Seq<char>, JsonVal)>::empty());
                }
            } else {
                lemma_members_text_zero(ms);
                let body = members_text_from(ms, 0);
                assert(t == seq!['{'] + sp_print_members(ms, ms.len() as int) + seq!['}']);
                assert(t.len() == body.len() + 2);
                lemma_printable_members_elem(ms, ms.len() as int, 0);
                assert forall|j: int| 0 <= j < body.len() implies #[trigger] s.subrange(
                    i + 1,
                    i + 1 + body.len(),
                )[j] == body[j] by {
                    assert(s[i + (1 + j)] == t[1 + j]);
                    assert(t[1 + j] == body[j]);
                }
                assert(s.subrange(i + 1, i + 1 + body.len()) =~= body);
                assert(s[i + (1 + body.len())] == t[1 + body.len() as int]);
                assert(s[i + 1 + body.len()] == '}');
                assert(body[0] == sp_print_member(ms[0])[0]);
                assert(body[0] == '"');
                assert(s[i + 1] == body[0]);
                assert(sp_ws(s, i + 1) == i + 1);
                assert(norm(i + 1, i + 1, s.len() as int) == i + 1);
                assert(s[i + 1] != '}');
                lemma_members_scan(ms, 0, s, i + 1);
                assert(ms.subrange(0, ms.len() as int) =~= ms);
                lemma_obj_of_pairs_distinct(ms);
            }
        },
    }
}

/// Parsing at the printed items of a printable list, bounded by the
/// closing bracket, yields the items from `idx` on.
#[verifier::rlimit(100)]
proof fn lemma_items_scan(vs: Seq<JsonVal>, idx: int, s: Seq<char>, j: int)
    requires
        0 <= idx < vs.len(),
        printable_list(vs, vs.len() as int),
        0 <= j,
        j + items_text_from(vs, idx).len() < s.len(),
        s.subrange(j, j + items_text_from(vs, idx).len()) == items_text_from(vs, idx),
        s[j + items_text_from(vs, idx).len()] == ']',
    ensures
        sp_items(s, j) == (
            Ok::<Seq<JsonVal>, JsonErr>(vs.subrange(idx, vs.len() as int)),
            j + items_text_from(vs, idx).len(),
        ),
    decreases vs, 1int, vs.len() - idx,
{
    let ft = items_text_from(vs, idx);
    lemma_subrange_chars(s, j, ft);
    lemma_printable_list_elem(vs, vs.len() as int, idx);
    lemma_print_opens(vs[idx]);
    let pt = sp_print(vs[idx]);
    assert(s[j + 0] == ft[0]);
    assert(ft[0] == pt[0]);
    lemma_opens_not_ws(s[j]);
    assert(sp_ws(s, j) == j);
    assert(norm(j, j, s.len() as int) == j);
    assert forall|k: int| 0 <= k < pt.len() implies #[trigger] s.subrange(j, j + pt.len())[k]
        == pt[k] by {
        assert(s[j + k] == ft[k]);
        assert(ft[k] == pt[k]);
    }
    assert(s.subrange(j, j + pt.len()) =~= pt);
    let p1 = j + pt.len();
    if idx == vs.len() - 1 {
        assert(ft == pt);
        lemma_value_print(vs[idx], s, j);
        assert(norm(j, p1, s.len() as int) == p1);
        assert(s[p1] == ']');
        lemma_opens_not_ws(s[p1]);
        assert(!is_ws_char(s[p1]));
        assert(sp_ws(s, p1) == p1);
        assert(norm(p1, p1, s.len() as int) == p1);
        assert(sp_element(s, j) == (Ok::<JsonVal, JsonErr>(vs[idx]), p1));
        lemma_opens_not_ws(s[p1]);
        assert(sp_ws(s, p1) == p1);
        assert(norm(p1, p1, s.len() as int) == p1);
        assert(s[p1] != ',');
        assert(seq![vs[idx]] =~= vs.subrange(idx, vs.len() as int));
    } else {
        let rest = items_text_from(vs, idx + 1);
        assert(ft == pt + seq![','] + rest);
        assert(s[p1] == ft[pt.len() as int]);
        assert(s[p1] == ',');
        lemma_value_print(vs[idx], s, j);
        assert(norm(j, p1, s.len() as int) == p1);
        assert(!is_ws_char(s[p1]));
        assert(sp_ws(s, p1) == p1);
        assert(norm(p1, p1, s.len() as int) == p1);
        assert(sp_element(s, j) == (Ok::<JsonVal, JsonErr>(vs[idx]), p1));
        assert forall|k: int| 0 <= k < rest.len() implies #[trigger] s.subrange(
            p1 + 1,
            p1 + 1 + rest.len(),
        )[k] == rest[k] by {
            assert(s[j + (pt.len() + 1 + k)] == ft[pt.len() + 1 + k]);
            assert(ft[pt.len() + 1 + k] == rest[k]);
        }
        assert(s.subrange(p1 + 1, p1 + 1 + rest.len()) =~= rest);
        assert(s[j + ft.len()] == s[p1 + 1 + rest.len()]);
        lemma_items_scan(vs, idx + 1, s, p1 + 1);
        assert(seq![vs[idx]] + vs.subrange(idx + 1, vs.len() as int) =~= vs.subrange(
            idx,
            vs.len() as int,
        ));
    }
}

/// Parsing at the printed members of a printable object, bounded by the
/// closing brace, yields the member pairs from `idx` on.
#[verifier::rlimit(100)]
proof fn lemma_members_scan(ms: Seq<(Seq<char>, JsonVal)>, idx: int, s: Seq<char>, j: int)
    requires
        0 <= idx < ms.len(),
        printable_members(ms, ms.len() as int),
        0 <= j,
        j + members_text_from(ms, idx).len() < s.len(),
        s.subrange(j, j + members_text_from(ms, idx).len()) == members_text_from(ms, idx),
        s[j + members_text_from(ms, idx).len()] == '}',
    ensures
        sp_members(s, j) == (
            Ok::<Seq<(Seq<char>, JsonVal)>, JsonErr>(ms.subrange(idx, ms.len() as int)),
            j + members_text_from(ms, idx).len(),
        ),
    decreases ms, 1int, ms.len() - idx,
{
    let ft = members_text_from(ms, idx);
    lemma_subrange_chars(s, j, ft);
    lemma_printable_members_elem(ms, ms.len() as int, idx);
    let key = ms[idx].0;
    let vv = ms[idx].1;
    let vt = sp_print(vv);
    let mt = sp_print_member(ms[idx]);
    lemma_print_opens(vv);
    assert(mt == seq!['"'] + key + seq!['"', ':'] + vt);
    assert(mt.len() == key.len() + vt.len() + 3);
    assert forall|k: int| 0 <= k < mt.len() implies #[trigger] s[j + k] == mt[k] by {
        if idx == ms.len() - 1 {
            assert(ft == mt);
            assert(s[j + k] == ft[k]);
        } else {
            assert(ft == mt + seq![','] + members_text_from(ms, idx + 1));
            assert(s[j + k] == ft[k]);
            assert(ft[k] == mt[k]);
        }
    }
    assert(s[j + 0] == mt[0]);
    assert(s[j] == '"');
    assert(sp_ws(s, j) == j);
    assert(norm(j, j, s.len() as int) == j);
    assert(norm(j, sp_ws(s, j), s.len() as int) == j);
    // the key string
    assert forall|k: int| 0 <= k < key.len() implies #[trigger] s.subrange(
        j + 1,
        j + 1 + key.len(),
    )[k] == key[k] by {
        assert(s[j + (1 + k)] == mt[1 + k]);
        assert(mt[1 + k] == key[k]);
    }
    assert(s.subrange(j + 1, j + 1 + key.len()) =~= key);
    assert(s[j + (1 + key.len())] == mt[1 + key.len() as int]);
    assert(s[j + 1 + key.len()] == '"');
    lemma_string_body_scan(s, j + 1, key);
    assert(norm(j, j + 1, s.len() as int) == j + 1);
    let ks = j + key.len() + 2;
    assert(sp_string(s, j) == (Ok::<JsonVal, JsonErr>(JsonVal::Str(key)), ks));
    assert(norm(j, ks, s.len() as int) == ks);
    // the colon between whitespace skips
    assert(s[j + (key.len() + 2)] == mt[key.len() + 2int]);
    assert(mt[key.len() + 2int] == ':');
    assert(s[ks] == ':');
    assert(sp_ws(s, ks) == ks);
    assert(norm(ks, ks, s.len() as int) == ks);
    let c = ks + 1;
    assert(norm(ks, c, s.len() as int) == c);
    assert(s[j + (key.len() + 3)] == mt[key.len() + 3int]);
    assert(mt[key.len() + 3int] == vt[0]);
    assert(s[c] == vt[0]);
    lemma_opens_not_ws(s[c]);
    assert(sp_ws(s, c) == c);
    assert(norm(c, c, s.len() as int) == c);
    // the value element
    assert forall|k: int| 0 <= k < vt.len() implies #[trigger] s.subrange(c, c + vt.len())[k]
        == vt[k] by {
        assert(s[j + (key.len() + 3 + k)] == mt[key.len() + 3 + k]);
        assert(mt[key.len() + 3 + k] == vt[k]);
    }
    assert(s.subrange(c, c + vt.len()) =~= vt);
    let pe = c + vt.len();
    assert(pe == j + mt.len());
    if idx == ms.len() - 1 {
        assert(ft == mt);
        assert(s[pe] == '}');
    } else {
        assert(ft == mt + seq![','] + members_text_from(ms, idx + 1));
        assert(s[j + mt.len()] == ft[mt.len() as int]);
        assert(s[pe] == ',');
    }
    assert(number_stopper(s[pe]));
    lemma_value_print(vv, s, c);
    assert(norm(c, pe, s.len() as int) == pe);
    assert(sp_ws(s, pe) == pe);
    assert(norm(pe, pe, s.len() as int) == pe);
    assert(sp_element(s, c) == (Ok::<JsonVal, JsonErr>(vv), pe));
    assert(sp_key_value(s, j) == (
        Ok::<(JsonVal, JsonVal), JsonErr>((JsonVal::Str(key), vv)),
        pe,
    ));
    assert(norm(j, pe, s.len() as int) == pe);
    if idx == ms.len() - 1 {
        assert(ft == mt);
        assert(s[pe] == '}');
        lemma_value_print(vv, s, c);
        assert(norm(c, pe, s.len() as int) == pe);
        assert(sp_ws(s, pe) == pe);
        assert(norm(pe, pe, s.len() as int) == pe);
        assert(norm(j, pe, s.len() as int) == pe);
        assert(s[pe] != ',');
        assert((key, vv) == ms[idx]);
        assert(seq![ms[idx]] =~= ms.subrange(idx, ms.len() as int));
    } else {
        let rest = members_text_from(ms, idx + 1);
        assert(ft == mt + seq![','] + rest);
        assert(s[j + mt.len()] == ft[mt.len() as int]);
        assert(s[pe] == ',');
        lemma_value_print(vv, s, c);
        assert(norm(c, pe, s.len() as int) == pe);
        assert(sp_ws(s, pe) == pe);
        assert(norm(pe, pe, s.len() as int) == pe);
        assert(norm(j, pe, s.len() as int) == pe);
        assert forall|k: int| 0 <= k < rest.len() implies #[trigger] s.subrange(
            pe + 1,
            pe + 1 + rest.len(),
        )[k] == rest[k] by {
            assert(s[j + (mt.len() + 1 + k)] == ft[mt.len() + 1 + k]);
            assert(ft[mt.len() + 1 + k] == rest[k]);
        }
        assert(s.subrange(pe + 1, pe + 1 + rest.len()) =~= rest);
        assert(s[j + ft.len()] == s[pe + 1 + rest.len()]);
        lemma_members_scan(ms, idx + 1, s, pe + 1);
        assert((key, vv) == ms[idx]);
        assert(seq![ms[idx]] + ms.subrange(idx + 1, ms.len() as int) =~= ms.subrange(
            idx,
            ms.len() as int,
        ));
    }
}

/// The round-trip law: for every value the grammar can construct — free
/// of doubles and of string content that would need escaping, with
/// integers within 64 signed bits and distinct object keys — parsing the
/// printed text yields the value back, consuming exactly that text.
pub proof fn lemma_parse_print_round_trip(v: JsonVal)
    requires
        printable(v),
    ensures
        sp_element(sp_print(v), 0) == (Ok::<JsonVal, JsonErr>(v), sp_print(v).len() as int),
        sp_parse(sp_print(v)) == Ok::<JsonVal, JsonErr>(v),
{
    let s = sp_print(v);
    assert(s.subrange(0, s.len() as int) =~= s);
    lemma_value_print(v, s, 0);
    lemma_print_opens(v);
    lemma_opens_not_ws(s[0]);
    assert(sp_ws(s, 0) == 0);
    assert(norm(0, 0, s.len() as int) == 0);
    let n = s.len() as int;
    assert(norm(0, n, n) == n);
    assert(sp_ws(s, n) == n);
    assert(norm(n, n, n) == n);
}

} // verus!
