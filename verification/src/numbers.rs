//! Decimal text and 64-bit integers: the conversion both ways, verified
//! against the numeric value of the digit text, with overflow detected
//! rather than wrapped.

use vstd::prelude::*;
use crate::grammar::{digits_val, int_text_val, is_digit_char};

verus! {

/// One or more decimal digits.
pub open spec fn digits_shape(t: Seq<char>) -> bool {
    t.len() > 0 && forall|k: int| 0 <= k < t.len() ==> is_digit_char(#[trigger] t[k])
}

/// An integer literal: an optional leading minus, then one or more digits.
pub open spec fn int_literal_shape(t: Seq<char>) -> bool {
    if t.len() > 0 && t[0] == '-' {
        digits_shape(t.drop_first())
    } else {
        digits_shape(t)
    }
}

/// The value of a run of digits is never negative.
pub proof fn lemma_digits_val_nonneg(t: Seq<char>)
    requires
        forall|k: int| 0 <= k < t.len() ==> is_digit_char(#[trigger] t[k]),
    ensures
        digits_val(t) >= 0,
    decreases t.len(),
{
    if t.len() > 0 {
        lemma_digits_val_nonneg(t.drop_last());
    }
}

/// Appending digits never shrinks the value: the value of a prefix is a
/// lower bound for the value of the whole run.
pub proof fn lemma_digits_val_prefix_le(t: Seq<char>, k: int)
    requires
        forall|j: int| 0 <= j < t.len() ==> is_digit_char(#[trigger] t[j]),
        0 <= k <= t.len(),
    ensures
        digits_val(t.subrange(0, k)) <= digits_val(t),
    decreases t.len() - k,
{
    if k == t.len() {
        assert(t.subrange(0, k) =~= t);
    } else {
        lemma_digits_val_prefix_le(t, k + 1);
        let p = t.subrange(0, k + 1);
        assert(p.drop_last() =~= t.subrange(0, k));
        lemma_digits_val_nonneg(t.subrange(0, k));
        assert(digits_val(p) == digits_val(t.subrange(0, k)) * 10 + (p.last() as u32 - 48));
        assert(digits_val(t.subrange(0, k)) * 10 >= digits_val(t.subrange(0, k))) by (nonlinear_arith)
            requires digits_val(t.subrange(0, k)) >= 0;
    }
}

/// The 64-bit signed integer denoted by an integer literal text, or `None`
/// exactly where the value does not fit 64 signed bits.
pub fn i64_from_text(t: &Vec<char>) -> (r: Option<i64>)
    requires
        int_literal_shape(t@),
    ensures
        r is Some <==> i64::MIN as int <= int_text_val(t@) <= i64::MAX as int,
        r matches Some(v) ==> v as int == int_text_val(t@),
{
    let neg = t[0] == '-';
    let start: usize = if neg { 1 } else { 0 };
    let ghost d = if neg { t@.drop_first() } else { t@ };
    let mut acc: u128 = 0;
    let mut k = start;
    proof {
        assert(d =~= t@.subrange(start as int, t@.len() as int));
        assert(t@.subrange(start as int, start as int) =~= Seq::<char>::empty());
    }
    while k < t.len()
        invariant
            start <= k <= t@.len(),
            start == (if neg { 1int } else { 0int }),
            t@.len() > start,
            neg <==> t@[0] == '-',
            int_literal_shape(t@),
            d == t@.subrange(start as int, t@.len() as int),
            forall|j: int| 0 <= j < d.len() ==> is_digit_char(#[trigger] d[j]),
            acc == digits_val(t@.subrange(start as int, k as int)),
            acc <= 0x8000_0000_0000_0000u128,
        decreases t@.len() - k,
    {
        let c = t[k];
        assert(is_digit_char(c)) by {
            assert(d[k - start] == t@[k as int]);
        }
        let dv: u128 = (c as u32 - 48) as u128;
        let next: u128 = acc * 10 + dv;
        proof {
            let p = t@.subrange(start as int, k + 1);
            assert(p.drop_last() =~= t@.subrange(start as int, k as int));
            assert(p.last() == t@[k as int]);
        }
        acc = next;
        k = k + 1;
        if acc > 0x8000_0000_0000_0000u128 {
            proof {
                let pre = t@.subrange(start as int, k as int);
                assert(pre =~= d.subrange(0, k - start));
                lemma_digits_val_prefix_le(d, k - start);
                lemma_digits_val_nonneg(d);
                if neg {
                    assert(d =~= t@.drop_first());
                    assert(int_text_val(t@) == -digits_val(d));
                } else {
                    assert(d =~= t@);
                    assert(int_text_val(t@) == digits_val(d));
                }
            }
            return None;
        }
    }
    proof {
        assert(t@.subrange(start as int, k as int) =~= d);
        if neg {
            assert(d =~= t@.drop_first());
            assert(int_text_val(t@) == -digits_val(d));
        } else {
            assert(d =~= t@);
            assert(int_text_val(t@) == digits_val(d));
        }
        lemma_digits_val_nonneg(d);
    }
    if neg {
        if acc <= 0x7fff_ffff_ffff_ffffu128 {
            Some(-(acc as i64))
        } else {
            Some(i64::MIN)
        }
    } else {
        if acc <= 0x7fff_ffff_ffff_ffffu128 {
            Some(acc as i64)
        } else {
            None
        }
    }
}

/// The digit character for a value below ten.
pub open spec fn digit_char(d: int) -> char {
    if d == 0 { '0' }
    else if d == 1 { '1' }
    else if d == 2 { '2' }
    else if d == 3 { '3' }
    else if d == 4 { '4' }
    else if d == 5 { '5' }
    else if d == 6 { '6' }
    else if d == 7 { '7' }
    else if d == 8 { '8' }
    else { '9' }
}

/// The decimal rendering of a nonnegative value, without a sign and
/// without leading zeroes (a single zero for zero itself).
pub open spec fn u_dec(n: int) -> Seq<char>
    decreases n,
        when n >= 0
{
    if n < 10 {
        seq![digit_char(n)]
    } else {
        u_dec(n / 10).push(digit_char(n % 10))
    }
}

/// As [`u_dec`], rendering zero as the empty text.
pub open spec fn u_dec0(n: int) -> Seq<char>
    decreases n,
        when n >= 0
{
    if n <= 0 {
        Seq::empty()
    } else {
        u_dec0(n / 10).push(digit_char(n % 10))
    }
}

/// For a positive value the two renderings agree.
pub proof fn lemma_u_dec0_eq(n: int)
    requires
        n >= 1,
    ensures
        u_dec0(n) == u_dec(n),
    decreases n,
{
    if n < 10 {
        reveal_with_fuel(u_dec0, 2);
        assert(u_dec0(n) =~= u_dec(n));
    } else {
        lemma_u_dec0_eq(n / 10);
    }
}

/// The decimal rendering of a 64-bit signed integer: a minus sign for a
/// negative value, then the digits of its magnitude.
pub open spec fn int_dec(n: int) -> Seq<char> {
    if n < 0 {
        seq!['-'] + u_dec(-n)
    } else {
        u_dec(n)
    }
}

/// The digit character of a value below ten, executably.
fn digit_char_of(d: u64) -> (c: char)
    requires
        d < 10,
    ensures
        c == digit_char(d as int),
{
    if d == 0 { '0' }
    else if d == 1 { '1' }
    else if d == 2 { '2' }
    else if d == 3 { '3' }
    else if d == 4 { '4' }
    else if d == 5 { '5' }
    else if d == 6 { '6' }
    else if d == 7 { '7' }
    else if d == 8 { '8' }
    else { '9' }
}

/// The decimal text of a 64-bit signed integer.
pub fn i64_to_text(i: i64) -> (r: Vec<char>)
    ensures
        r@ == int_dec(i as int),
{
    if i == 0 {
        let mut out: Vec<char> = Vec::new();
        out.push('0');
        assert(out@ =~= int_dec(0));
        return out;
    }
    let neg = i < 0;
    let mut m: u64 = if i == i64::MIN {
        9223372036854775808u64
    } else if i < 0 {
        (-i) as u64
    } else {
        i as u64
    };
    let ghost m0 = m as int;
    let mut rev: Vec<char> = Vec::new();
    proof {
        assert(u_dec0(m0) + rev@.reverse() =~= u_dec0(m0));
    }
    while m > 0
        invariant
            0 <= m,
            m0 >= 1,
            u_dec0(m as int) + rev@.reverse() =~= u_dec0(m0),
        decreases m,
    {
        let c = digit_char_of(m % 10);
        proof {
            assert(u_dec0(m as int) == u_dec0(m as int / 10).push(digit_char(m as int % 10)));
            assert((u_dec0(m as int / 10) + rev@.push(c).reverse()) =~= (u_dec0(m as int)
                + rev@.reverse()));
        }
        rev.push(c);
        m = m / 10;
    }
    proof {
        assert(rev@.reverse() =~= u_dec0(m0));
        lemma_u_dec0_eq(m0);
    }
    let mut out: Vec<char> = Vec::new();
    if neg {
        out.push('-');
    }
    let n = rev.len();
    let mut k: usize = 0;
    while k < n
        invariant
            0 <= k <= n,
            n == rev@.len(),
            out@ =~= (if neg { seq!['-'] } else { Seq::<char>::empty() }) + rev@.reverse().subrange(
                0,
                k as int,
            ),
        decreases n - k,
    {
        out.push(rev[n - 1 - k]);
        proof {
            assert(rev@.reverse()[k as int] == rev@[n - 1 - k]);
            assert(rev@.reverse().subrange(0, k + 1) =~= rev@.reverse().subrange(0, k as int).push(
                rev@.reverse()[k as int],
            ));
        }
        k = k + 1;
    }
    proof {
        assert(rev@.reverse().subrange(0, n as int) =~= rev@.reverse());
        if neg {
            assert(-(i as int) == m0);
            assert(out@ =~= int_dec(i as int));
        } else {
            assert(i as int == m0);
            assert(out@ =~= int_dec(i as int));
        }
    }
    out
}

} // verus!
