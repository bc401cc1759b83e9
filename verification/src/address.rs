//! Addresses of either family.

use vstd::prelude::*;

verus! {

/// An IP address of either family, as the integer of its bits: the first
/// byte of the address is the most significant one.
#[derive(Debug, Clone, Copy, PartialEq, Eq, Structural)]
pub enum IpAddress {
    /// An IPv4 address, as its 32 bits.
    V4(u32),
    /// An IPv6 address, as its 128 bits.
    V6(u128),
}

/// The error for a text that is no IPv4 and no IPv6 address.
#[derive(Debug, Clone, Copy, PartialEq, Eq, Structural)]
pub struct AddrParseError {}

} // verus!
