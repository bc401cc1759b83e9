//! The seal of the extension trait.

use vstd::prelude::*;
use crate::address::IpAddress;

verus! {

/// Implemented for the address types of this crate, and for no others.
pub trait Sealed {

}

impl Sealed for IpAddress {

}

impl Sealed for u32 {

}

impl Sealed for u128 {

}

} // verus!
