//! The parsed form of one JSON document.

use vstd::prelude::*;

verus! {

/// One JSON node.
///
/// An object keeps its entries in the order in which they stand in the
/// document; a parser that builds one gives each key once.
#[derive(Debug)]
pub enum JsonValue {
    Null,
    Bool(bool),
    /// A number, held as its JSON text.
    Number(String),
    Str(String),
    Array(Vec<JsonValue>),
    Object(Vec<(String, JsonValue)>),
}

} // verus!
