//! The value model: the tagged tree produced by parsing and consumed by the
//! serializer, together with its mathematical view and the typed parse errors.

use vstd::prelude::*;

verus! {

broadcast use vstd::std_specs::vec::group_vec_axioms;

/// Mathematical image of a [`Value`]: text is a sequence of characters,
/// integers are unbounded, containers are sequences.
///
/// A `Double` carries the raw text of the number literal, since the
/// numeric payload itself is only ever parsed and re-printed.
/// An `Object` carries its entries in storage order with pairwise
/// distinct keys.
pub ghost enum JsonVal {
    Null,
    Bool(bool),
    Int(int),
    Double(Seq<char>),
    Str(Seq<char>),
    Array(Seq<JsonVal>),
    Object(Seq<(Seq<char>, JsonVal)>),
}

/// The tagged union of JSON values.
///
/// `Str` stores the raw slice of source characters between the delimiting
/// quotes; escape sequences are kept verbatim, never decoded. `Double`
/// stores the raw text of a number literal that carries a fraction or an
/// exponent part, reproduced verbatim on output. `Object` keeps its
/// entries in first-insertion order and holds at most one entry per key
/// (a later insert for the same key overwrites the value in place).
#[derive(Debug, PartialEq)]
pub enum Value {
    Null,
    Bool(bool),
    Int(i64),
    Double(String),
    Str(String),
    Array(Vec<Value>),
    Object(Vec<(String, Value)>),
}

/// The images of the first `k` elements of `a`, in order.
pub open spec fn views_upto(a: Vec<Value>, k: int) -> Seq<JsonVal>
    decreases a, 1int, k,
        when 0 <= k <= a@.len()
{
    if k <= 0 {
        Seq::empty()
    } else {
        views_upto(a, k - 1).push(a@[k - 1].view_of())
    }
}

/// The images of the first `k` entries of `m`, in order.
pub open spec fn entry_views_upto(m: Vec<(String, Value)>, k: int) -> Seq<(Seq<char>, JsonVal)>
    decreases m, 1int, k,
        when 0 <= k <= m@.len()
{
    if k <= 0 {
        Seq::empty()
    } else {
        entry_views_upto(m, k - 1).push((m@[k - 1].0@, m@[k - 1].1.view_of()))
    }
}

impl Value {
    /// The mathematical image of this value.
    pub open spec fn view_of(self) -> JsonVal
        decreases self, 0int, 0int,
    {
        match self {
            Value::Null => JsonVal::Null,
            Value::Bool(b) => JsonVal::Bool(b),
            Value::Int(i) => JsonVal::Int(i as int),
            Value::Double(t) => JsonVal::Double(t@),
            Value::Str(t) => JsonVal::Str(t@),
            Value::Array(a) => JsonVal::Array(views_upto(a, a@.len() as int)),
            Value::Object(m) => JsonVal::Object(entry_views_upto(m, m@.len() as int)),
        }
    }
}

impl View for Value {
    type V = JsonVal;

    open spec fn view(&self) -> JsonVal {
        self.view_of()
    }
}

/// The image list of a vector's prefix is the pointwise image.
pub proof fn lemma_views_upto_index(a: Vec<Value>, k: int)
    requires
        0 <= k <= a@.len(),
    ensures
        views_upto(a, k).len() == k,
        forall|i: int| 0 <= i < k ==> views_upto(a, k)[i] == a@[i].view_of(),
    decreases k,
{
    if k > 0 {
        lemma_views_upto_index(a, k - 1);
    }
}

/// The image list of an entry vector's prefix is the pointwise image.
pub proof fn lemma_entry_views_upto_index(m: Vec<(String, Value)>, k: int)
    requires
        0 <= k <= m@.len(),
    ensures
        entry_views_upto(m, k).len() == k,
        forall|i: int| 0 <= i < k ==> entry_views_upto(m, k)[i] == (m@[i].0@, m@[i].1.view_of()),
    decreases k,
{
    if k > 0 {
        lemma_entry_views_upto_index(m, k - 1);
    }
}

/// Which keyword literal a mismatch was reported against.
#[derive(Debug, Clone, Copy, PartialEq, Eq, Structural)]
pub enum Keyword {
    True,
    False,
    Null,
}

/// Mathematical image of a [`ParseError`].
pub ghost enum JsonErr {
    StructuralMismatch { expected: char, found: Option<char> },
    PrematureEnd,
    ExpectedDigit { found: Option<char> },
    NumberFormat { text: Seq<char> },
    LiteralMismatch { literal: Keyword },
}

/// The typed failure value of the parser. The first failure anywhere in the
/// recursive descent aborts the whole parse; no recovery is attempted.
#[derive(Debug, Clone, PartialEq)]
pub enum ParseError {
    /// An expected punctuation character was absent; `found` is `None` at
    /// end of stream.
    StructuralMismatch { expected: char, found: Option<char> },
    /// A lookahead was required past the end of the input.
    PrematureEnd,
    /// The number parser found no digit where the grammar demands one.
    ExpectedDigit { found: Option<char> },
    /// Accumulated number text could not be converted to the target
    /// representation (including 64-bit integer overflow).
    NumberFormat { text: String },
    /// A keyword literal did not match character by character.
    LiteralMismatch { literal: Keyword },
}

impl View for ParseError {
    type V = JsonErr;

    open spec fn view(&self) -> JsonErr {
        match self {
            ParseError::StructuralMismatch { expected, found } => JsonErr::StructuralMismatch {
                expected: *expected,
                found: *found,
            },
            ParseError::PrematureEnd => JsonErr::PrematureEnd,
            ParseError::ExpectedDigit { found } => JsonErr::ExpectedDigit { found: *found },
            ParseError::NumberFormat { text } => JsonErr::NumberFormat { text: text@ },
            ParseError::LiteralMismatch { literal } => JsonErr::LiteralMismatch {
                literal: *literal,
            },
        }
    }
}

} // verus!
