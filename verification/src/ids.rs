//! Random identities for new outline items, from `uuid`.

use vstd::prelude::*;

verus! {

/// `Uuid::new_v4`, as the number that `as_u128` gives. It is random, so no
/// clause states anything of it.
#[verifier::external_body]
pub(crate) fn new_random_id() -> (id: u128) {
    uuid::Uuid::new_v4().as_u128()
}

} // verus!
