//! The key-extraction collaborator: a pure mapping from an element to the
//! totally ordered key that all comparisons of the sort use.

use vstd::prelude::*;

verus! {

/// A pure projection from an element to its sort key.
///
/// `key_spec` is the mathematical statement of the projection; `extract_key`
/// must compute exactly that value.  The scan phase calls it once per element
/// and caches the result, so an implementation need not be cheap.
pub trait KeyExtractor {
    /// The key of `element`, as a specification-level function.
    spec fn key_spec(&self, element: u64) -> u64;

    /// Compute the key of `element`.
    fn extract_key(&self, element: &u64) -> (key: u64)
        ensures
            key == self.key_spec(*element),
    ;
}

/// The identity projection: an element is its own key.
pub struct IdentityKey;

impl KeyExtractor for IdentityKey {
    open spec fn key_spec(&self, element: u64) -> u64 {
        element
    }

    fn extract_key(&self, element: &u64) -> (key: u64) {
        *element
    }
}

} // verus!
