use vstd::prelude::*;

verus! {

/// Closes [`crate::codec::Codec`] to the codecs of this crate.
pub trait Sealed {}

} // verus!
