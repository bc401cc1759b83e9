//! The pauses between attempts to fetch the registry.
//!
//! An attempt that fails is tried again after a pause that doubles each time,
//! and given up after the third retry has failed too.

use vstd::prelude::*;
use vstd::arithmetic::power2::{lemma2_to64, pow2};

verus! {

/// The most retries that are made after the first attempt.
pub const MAX_RETRIES: u32 = 3;

/// The seconds to wait before the next retry when `retries` retries have been
/// made and the last attempt has failed too: two seconds before the first
/// retry and twice as long before each next one. There is no next retry when
/// all retries have been made.
pub open spec fn spec_retry_delay(retries: u32) -> Option<u64> {
    if retries >= MAX_RETRIES {
        None
    } else {
        Some(pow2((retries + 1) as nat) as u64)
    }
}

/// Whether to try again after an attempt has failed, and after how many
/// seconds, when `retries` retries have been made before.
pub fn retry_delay(retries: u32) -> (delay: Option<u64>)
    ensures
        delay == spec_retry_delay(retries),
{
    proof {
        lemma2_to64();
    }
    if retries >= MAX_RETRIES {
        None
    } else if retries == 0 {
        Some(2)
    } else if retries == 1 {
        Some(4)
    } else {
        Some(8)
    }
}

} // verus!
