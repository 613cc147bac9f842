use vstd::prelude::*;

verus! {

/// A fresh session token, drawn at random.
///
/// Relies on `uuid::Uuid::new_v4` and `uuid::Uuid::as_u128`: a random version-4 identifier, read
/// as a number. Nothing is promised of its value. It panics only where the system's random
/// source fails, whatever the arguments.
#[verifier::external_body]
pub(crate) fn fresh_token() -> (r: u128) {
    uuid::Uuid::new_v4().as_u128()
}

} // verus!
