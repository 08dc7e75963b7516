use vstd::prelude::*;

verus! {

/// Marker for the primitive integer types.
pub trait Integer {

}

impl Integer for usize {

}

impl Integer for u8 {

}

impl Integer for u16 {

}

impl Integer for u32 {

}

impl Integer for u64 {

}

impl Integer for u128 {

}

impl Integer for isize {

}

impl Integer for i8 {

}

impl Integer for i16 {

}

impl Integer for i32 {

}

impl Integer for i64 {

}

impl Integer for i128 {

}

/// Marker for the signed primitive integer types.
pub trait SignedInteger: Integer {

}

impl SignedInteger for isize {

}

impl SignedInteger for i8 {

}

impl SignedInteger for i16 {

}

impl SignedInteger for i32 {

}

impl SignedInteger for i64 {

}

impl SignedInteger for i128 {

}

/// A conversion-style constructor: build `Self` from one ingredient.
pub trait With<T>: Sized {
    /// Build a value from the ingredient.
    fn with(value: T) -> Self;
}

} // verus!
