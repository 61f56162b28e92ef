//! The time at which nodes are created.

use vstd::prelude::*;

verus! {

/// `SystemTime::now` of the standard library, as whole seconds since the
/// Unix epoch; zero if the clock stands before the epoch. Nothing is
/// promised of the result: it is the machine's time.
#[verifier::external_body]
pub(crate) fn creation_time() -> u64 {
    match std::time::SystemTime::now().duration_since(std::time::UNIX_EPOCH) {
        Ok(d) => d.as_secs(),
        Err(_) => 0,
    }
}

} // verus!
