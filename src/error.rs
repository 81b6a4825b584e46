use vstd::prelude::*;

use crate::filter::ComparisonOp;

verus! {

/// What can go wrong when loading, changing or querying a store.
#[derive(Clone, Debug, PartialEq)]
pub enum PngDbError {
    /// The container could not be read or written.
    ContainerFormat(String),
    /// The `schema` entry of a container is not a valid schema.
    SchemaParse(String),
    /// The `schema` entry holds JSON that is not an object of string labels, each name once.
    InvalidSchema,
    /// A row entry of a container does not hold valid JSON.
    RowParse(String),
    /// An insert outside the store's width and height.
    OutOfBounds { x: u32, y: u32 },
    /// The filter text does not follow the grammar; holds the offending text.
    QueryParse(String),
    /// A field condition compares values of different kinds.
    TypeMismatch,
    /// The operator does not apply to the kind of the values compared.
    UnsupportedOperator(ComparisonOp),
}

} // verus!
