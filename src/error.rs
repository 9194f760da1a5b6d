use vstd::prelude::*;

verus! {

/// A row of the input table that cannot be part of a sequence.
#[derive(Clone, Debug, PartialEq, Eq)]
pub enum SchemaError {
    /// The identifier of the row at this index is missing.
    NullIdentifier { row: usize },
    /// The value of the row at this index, which belongs to `id`, is missing.
    NullValue { row: usize, id: String },
}

/// A pair of series for which no alignment exists: exactly one of the two
/// sequences is empty.
#[derive(Clone, Debug, PartialEq, Eq)]
pub struct ComputationError {
    pub id_1: String,
    pub id_2: String,
}

} // verus!
