use vstd::prelude::*;

verus! {

/// A fair coin from `rand::random::<bool>()` (rand's thread-local generator).
/// Nothing is claimed of the value: any `bool` may come back, and two calls
/// may differ.
#[verifier::external_body]
pub(crate) fn coin_flip() -> (heads: bool) {
    rand::random::<bool>()
}

} // verus!
