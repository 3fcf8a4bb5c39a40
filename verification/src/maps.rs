//! The concurrent map of the `dashmap` crate.

use dashmap::DashMap;
use vstd::prelude::*;

verus! {

/// `dashmap::DashMap`, whose contents are opaque here: the modules that hold
/// one give its contents a name.
#[verifier::external_type_specification]
#[verifier::external_body]
#[verifier::reject_recursive_types(K)]
#[verifier::reject_recursive_types(V)]
#[verifier::reject_recursive_types(S)]
pub struct ExDashMap<K, V, S>(DashMap<K, V, S>);

} // verus!
