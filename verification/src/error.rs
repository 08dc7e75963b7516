use vstd::prelude::*;

verus! {

/// Errors raised by the collection types in this crate.
#[derive(Debug)]
pub enum CollectionError {
    /// An index was outside the bounds of the collection.
    IndexOutOfRange,
    /// A construction parameter was rejected; the string names the reason.
    InvalidParameter(String),
    /// An insertion would introduce a second element equal to one already present.
    DuplicateKey,
}

impl CollectionError {
    /// True exactly on the `DuplicateKey` variant.
    pub fn is_duplicate_key(&self) -> (r: bool)
        ensures
            r == (self is DuplicateKey),
    {
        match self {
            CollectionError::DuplicateKey => true,
            _ => false,
        }
    }
}

} // verus!
