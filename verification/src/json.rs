//! The JSON values of the `serde_json` crate that entities and edges carry.
use vstd::prelude::*;

verus! {

#[verifier::external_type_specification]
#[verifier::external_body]
pub struct ExJsonValue(serde_json::Value);

/// `Clone::clone` of a `serde_json::Value`: a value equal to the original.
#[verifier::external_body]
pub fn json_clone(v: &serde_json::Value) -> (c: serde_json::Value)
    ensures
        c == *v,
{
    v.clone()
}

} // verus!
