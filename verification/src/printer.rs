//! The serializer: the most compact textual form of a value, with no
//! inserted whitespace, specified by a mathematical printer over the
//! value's image and proved exact.

use vstd::prelude::*;
use crate::numbers::{i64_to_text, int_dec};
use crate::parser::chars_to_string;
use crate::trusted::push_char;
use crate::value::{
    entry_views_upto, lemma_entry_views_upto_index, lemma_views_upto_index, views_upto, JsonVal,
    Value,
};

verus! {

broadcast use vstd::std_specs::vec::group_vec_axioms;

/// The compact text of a value: keyword literals spelled out, integers in
/// decimal, a double's stored literal text verbatim, a string's raw
/// content between quotes with no escaping applied on output, arrays and
/// objects comma-joined inside their brackets in stored order.
pub open spec fn sp_print(v: JsonVal) -> Seq<char>
    decreases v, 0int, 0int,
{
    match v {
        JsonVal::Null => seq!['n', 'u', 'l', 'l'],
        JsonVal::Bool(b) => if b {
            seq!['t', 'r', 'u', 'e']
        } else {
            seq!['f', 'a', 'l', 's', 'e']
        },
        JsonVal::Int(n) => int_dec(n),
        JsonVal::Double(t) => t,
        JsonVal::Str(t) => seq!['"'] + t + seq!['"'],
        JsonVal::Array(vs) => seq!['['] + sp_print_items(vs, vs.len() as int) + seq![']'],
        JsonVal::Object(ms) => seq!['{'] + sp_print_members(ms, ms.len() as int) + seq!['}'],
    }
}

/// The comma-joined text of the first `k` items.
pub open spec fn sp_print_items(vs: Seq<JsonVal>, k: int) -> Seq<char>
    decreases vs, 1int, k,
        when 0 <= k <= vs.len()
{
    if k <= 0 {
        Seq::empty()
    } else if k == 1 {
        sp_print(vs[0])
    } else {
        sp_print_items(vs, k - 1) + seq![','] + sp_print(vs[k - 1])
    }
}

/// The text of one object member: the quoted key, a colon, the value.
pub open spec fn sp_print_member(p: (Seq<char>, JsonVal)) -> Seq<char>
    decreases p, 0int, 0int,
{
    seq!['"'] + p.0 + seq!['"', ':'] + sp_print(p.1)
}

/// The comma-joined text of the first `k` members.
pub open spec fn sp_print_members(ms: Seq<(Seq<char>, JsonVal)>, k: int) -> Seq<char>
    decreases ms, 1int, k,
        when 0 <= k <= ms.len()
{
    if k <= 0 {
        Seq::empty()
    } else if k == 1 {
        sp_print_member(ms[0])
    } else {
        sp_print_members(ms, k - 1) + seq![','] + sp_print_member(ms[k - 1])
    }
}

/// Renders a value as compact JSON text.
pub fn print(v: &Value) -> (r: String)
    ensures
        r@ == sp_print(v@),
    decreases v,
{
    match v {
        Value::Null => {
            let mut out = String::new();
            push_char(&mut out, 'n');
            push_char(&mut out, 'u');
            push_char(&mut out, 'l');
            push_char(&mut out, 'l');
            proof {
                assert(out@ =~= seq!['n', 'u', 'l', 'l']);
            }
            out
        },
        Value::Bool(b) => {
            let mut out = String::new();
            if *b {
                push_char(&mut out, 't');
                push_char(&mut out, 'r');
                push_char(&mut out, 'u');
                push_char(&mut out, 'e');
                proof {
                    assert(out@ =~= seq!['t', 'r', 'u', 'e']);
                }
            } else {
                push_char(&mut out, 'f');
                push_char(&mut out, 'a');
                push_char(&mut out, 'l');
                push_char(&mut out, 's');
                push_char(&mut out, 'e');
                proof {
                    assert(out@ =~= seq!['f', 'a', 'l', 's', 'e']);
                }
            }
            out
        },
        Value::Int(i) => {
            let t = i64_to_text(*i);
            chars_to_string(&t)
        },
        Value::Double(t) => {
            let out = t.clone();
            proof {
                assert(out@ == t@);
            }
            out
        },
        Value::Str(t) => {
            let mut out = String::new();
            push_char(&mut out, '"');
            out.append(t.as_str());
            push_char(&mut out, '"');
            proof {
                assert(out@ =~= seq!['"'] + t@ + seq!['"']);
            }
            out
        },
        Value::Array(arr) => {
            let ghost vs = views_upto(*arr, arr@.len() as int);
            proof {
                lemma_views_upto_index(*arr, arr@.len() as int);
            }
            let mut out = String::new();
            push_char(&mut out, '[');
            let n = arr.len();
            let mut i: usize = 0;
            proof {
                assert(out@ =~= seq!['['] + sp_print_items(vs, 0));
            }
            while i < n
                invariant
                    0 <= i <= n,
                    n == arr@.len(),
                    *v == Value::Array(*arr),
                    vs == views_upto(*arr, arr@.len() as int),
                    vs.len() == n,
                    forall|j: int| 0 <= j < n ==> vs[j] == arr@[j].view_of(),
                    out@ =~= seq!['['] + sp_print_items(vs, i as int),
                decreases n - i,
            {
                if i > 0 {
                    push_char(&mut out, ',');
                }
                proof {
                    assert(*arr == v->Array_0);
                    assert(decreases_to!(*v => v->Array_0));
                    assert(decreases_to!(*arr => arr@));
                    assert(decreases_to!(arr@ => arr@[i as int]));
                }
                let sub = print(&arr[i]);
                out.append(sub.as_str());
                proof {
                    if i == 0 {
                        assert(sp_print_items(vs, 1) == sp_print(vs[0]));
                        assert(out@ =~= seq!['['] + sp_print_items(vs, 1));
                    } else {
                        assert(sp_print_items(vs, i + 1) == sp_print_items(vs, i as int)
                            + seq![','] + sp_print(vs[i as int]));
                        assert(out@ =~= seq!['['] + sp_print_items(vs, i + 1));
                    }
                }
                i = i + 1;
            }
            push_char(&mut out, ']');
            proof {
                assert(out@ =~= seq!['['] + sp_print_items(vs, n as int) + seq![']']);
            }
            out
        },
        Value::Object(m) => {
            let ghost ms = entry_views_upto(*m, m@.len() as int);
            proof {
                lemma_entry_views_upto_index(*m, m@.len() as int);
            }
            let mut out = String::new();
            push_char(&mut out, '{');
            let n = m.len();
            let mut i: usize = 0;
            proof {
                assert(out@ =~= seq!['{'] + sp_print_members(ms, 0));
            }
            while i < n
                invariant
                    0 <= i <= n,
                    n == m@.len(),
                    *v == Value::Object(*m),
                    ms == entry_views_upto(*m, m@.len() as int),
                    ms.len() == n,
                    forall|j: int| 0 <= j < n ==> ms[j] == (m@[j].0@, m@[j].1.view_of()),
                    out@ =~= seq!['{'] + sp_print_members(ms, i as int),
                decreases n - i,
            {
                if i > 0 {
                    push_char(&mut out, ',');
                }
                let ghost before = out@;
                push_char(&mut out, '"');
                out.append(m[i].0.as_str());
                push_char(&mut out, '"');
                push_char(&mut out, ':');
                proof {
                    assert(*m == v->Object_0);
                    assert(decreases_to!(*v => v->Object_0));
                    assert(decreases_to!(*m => m@));
                    assert(decreases_to!(m@ => m@[i as int]));
                    assert(decreases_to!(m@[i as int] => m@[i as int].1));
                }
                let sub = print(&m[i].1);
                out.append(sub.as_str());
                proof {
                    assert(out@ =~= before + sp_print_member(ms[i as int]));
                    if i == 0 {
                        assert(sp_print_members(ms, 1) == sp_print_member(ms[0]));
                        assert(out@ =~= seq!['{'] + sp_print_members(ms, 1));
                    } else {
                        assert(sp_print_members(ms, i + 1) == sp_print_members(ms, i as int)
                            + seq![','] + sp_print_member(ms[i as int]));
                        assert(out@ =~= seq!['{'] + sp_print_members(ms, i + 1));
                    }
                }
                i = i + 1;
            }
            push_char(&mut out, '}');
            proof {
                assert(out@ =~= seq!['{'] + sp_print_members(ms, n as int) + seq!['}']);
            }
            out
        },
    }
}

} // verus!
