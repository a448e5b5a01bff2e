//! Management of the HVCI driver blocklist: a sorted, case-insensitively
//! deduplicated list of driver image names, persisted by the caller as a
//! multi-string registry value.
//!
//! This crate holds the decision logic only: whether the process may
//! proceed, whether a name is already listed, and what the updated list
//! must look like. Reading and writing the registry, and querying the
//! process token, are left to the (unverified) binary around it.

use vstd::prelude::*;

pub mod blocklist;
pub mod order;

verus! {

/// The process may touch the registry only when the elevation query
/// succeeded and reported an elevated token. A failed query (`None`)
/// counts as not elevated (fail closed).
pub fn may_proceed(elevation: Option<bool>) -> (r: bool)
    ensures
        r == (elevation == Some(true)),
{
    match elevation {
        Some(true) => true,
        _ => false,
    }
}

} // verus!
