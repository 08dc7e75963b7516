use vstd::prelude::*;

verus! {

/// Whether the crate was built for debugging. Build-time configuration is
/// not modeled; this always reports a release build.
pub fn debug_mode() -> (r: bool)
    ensures
        !r,
{
    false
}

} // verus!
