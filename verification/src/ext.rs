//! The test for bogons as a method of the address types.

use vstd::prelude::*;
use crate::address::IpAddress;
use crate::{spec_is_bogon, spec_is_bogon_v4, spec_is_bogon_v6};

mod sealed;

verus! {

/// An extension trait for checking if an IP address is in a bogon network.
///
/// The trait is sealed: it is implemented for the address types of this
/// crate, and cannot be implemented for others.
pub trait BogonExt: sealed::Sealed {
    /// Whether the address is bogus.
    spec fn bogus(&self) -> bool;

    /// Returns `true` if the address is bogus, and `false` if it is good.
    fn is_bogon(&self) -> (bogon: bool)
        ensures
            bogon == self.bogus(),
    ;
}

impl BogonExt for IpAddress {
    open spec fn bogus(&self) -> bool {
        spec_is_bogon(*self)
    }

    fn is_bogon(&self) -> (bogon: bool) {
        crate::is_bogon(*self)
    }
}

/// An IPv4 address, as its 32 bits.
impl BogonExt for u32 {
    open spec fn bogus(&self) -> bool {
        spec_is_bogon_v4(*self)
    }

    fn is_bogon(&self) -> (bogon: bool) {
        crate::is_bogon_v4(*self)
    }
}

/// An IPv6 address, as its 128 bits.
impl BogonExt for u128 {
    open spec fn bogus(&self) -> bool {
        spec_is_bogon_v6(*self)
    }

    fn is_bogon(&self) -> (bogon: bool) {
        crate::is_bogon_v6(*self)
    }
}

} // verus!
