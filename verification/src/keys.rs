//! What the caches ask of a key type.

use vstd::prelude::*;
use vstd::std_specs::hash::obeys_key_model;

verus! {

/// Keys are hashed, compared and cloned by the key type's own `Hash`, `Eq` and
/// `Clone`. The caches are specified for key types whose hash is
/// deterministic, whose `==` agrees with equality of values, and whose clone
/// equals the key cloned. Integers and `bool` are such types.
pub open spec fn key_model<K: Clone>() -> bool {
    &&& obeys_key_model::<K>()
    &&& forall|a: K, b: K| #[trigger] cloned::<K>(a, b) ==> a == b
}

} // verus!
