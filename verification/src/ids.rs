use vstd::prelude::*;

verus! {

/// Relies on uuid::Uuid::new_v4 and its Display impl: a version-4
/// identifier rendered in the 36-character hyphenated form, which holds
/// only lowercase hex digits and hyphens — in particular no dot and no
/// path separator. Nothing is assumed about which identifier comes back.
#[verifier::external_body]
pub fn fresh_id() -> (r: String)
    ensures
        r@.len() == 36,
        forall|i: int| 0 <= i < r@.len() ==> #[trigger] r@[i] != '.' && r@[i] != '/',
{
    uuid::Uuid::new_v4().to_string()
}

} // verus!
