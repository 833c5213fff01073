use vstd::prelude::*;

verus! {

/// The failures that the library reports; each has one fixed message.
#[derive(Clone, Copy, Debug, PartialEq, Eq, Structural)]
pub enum VettoreError {
    CollectionNotFound,
    ValueNotFound,
    VectorNotFound,
    IdNotFound,
    DuplicateCollection,
    DuplicateValue,
    DuplicateVector,
    DuplicateId,
    DimensionMismatch,
    LengthMismatch,
    QueryDimMismatch,
    UnknownDistance,
    FilterUnsupportedWithHnsw,
    LockPoisoned,
}

} // verus!
