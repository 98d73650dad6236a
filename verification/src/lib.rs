//! A recursive-descent JSON parser and compact serializer.
//!
//! The library reads a complete buffer of characters, parses it into a
//! [`value::Value`] tree, and renders such a tree back to compact JSON
//! text. Every function is specified against a mathematical grammar and
//! serializer over sequences of characters.

pub mod grammar;
pub mod numbers;
pub mod parser;
pub mod printer;
pub mod roundtrip;
pub mod trusted;
pub mod value;
