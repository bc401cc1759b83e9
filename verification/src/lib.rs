//! Classification of IP addresses as bogons: addresses that are not valid on
//! the public internet because they are private, reserved, or unallocated.
//!
//! An IPv4 address is bogus when it lies in one of the fifteen special-use
//! networks of [`v4_bogon_table`]. An IPv6 address is bogus unless it is a
//! global unicast address in a block that has been allocated to a regional
//! registry.
//!
//! Addresses are held as the integers of their bits. The tests of this file
//! take such an integer, an [`IpAddress`] of either family, or a text.
//!
//! The table of allocated IPv6 blocks in [`allocations`] is what the
//! [`compiler`] gives for the registry of allocations: the allocated blocks
//! are merged where they overlap or touch ([`interval`]), the merged ranges
//! are cut into blocks again ([`decompose`]), blocks within others are
//! dropped ([`subnets`]), and each block is held by its top 32 bits
//! ([`network`]).

use vstd::prelude::*;
use vstd::string::StringSliceAdditionalSpecFns;

pub mod address;
pub mod allocations;
pub mod cidr;
pub mod compiler;
pub mod decompose;
pub mod ext;
pub mod interval;
pub mod network;
pub mod registry;
pub mod retry;
pub mod sorting;
pub mod subnets;
pub mod text;

pub use crate::address::{AddrParseError, IpAddress};
pub use crate::ext::BogonExt;

use crate::allocations::{
    lemma_table_holds_registry, registry_blocks, v6_allocation_table, v6_allocations,
};
use crate::cidr::covered_by;
use crate::network::{
    holds, is_block, is_table_of, last_of, lemma_holds_is_range, table_matches, FourByteNetwork,
};
use crate::text::{address_of, read_address};

verus! {

/// The special-use networks of IPv4, each as its base address and prefix
/// length.
pub open spec fn v4_bogon_table() -> Seq<(u32, u8)> {
    seq![
        (0x0000_0000u32, 8u8),
        (0x0a00_0000u32, 8u8),
        (0x6440_0000u32, 10u8),
        (0x7f00_0000u32, 8u8),
        (0xa9fe_0000u32, 16u8),
        (0xac10_0000u32, 12u8),
        (0xc000_0000u32, 24u8),
        (0xc000_0200u32, 24u8),
        (0xc0a8_0000u32, 16u8),
        (0xc612_0000u32, 15u8),
        (0xc633_6400u32, 24u8),
        (0xcb00_7100u32, 24u8),
        (0xe000_0000u32, 4u8),
        (0xf000_0000u32, 4u8),
        (0xffff_ffffu32, 32u8),
    ]
}

/// Whether the IPv4 address with the bits `ip` is bogus: it lies in one of
/// the special-use networks.
pub open spec fn spec_is_bogon_v4(ip: u32) -> bool {
    table_matches(v4_bogon_table(), ip)
}

/// Each special-use network, by its numbers, is a block in canonical form.
proof fn lemma_v4_blocks()
    ensures
        is_block((0x0000_0000u32, 8u8)),
        is_block((0x0a00_0000u32, 8u8)),
        is_block((0x6440_0000u32, 10u8)),
        is_block((0x7f00_0000u32, 8u8)),
        is_block((0xa9fe_0000u32, 16u8)),
        is_block((0xac10_0000u32, 12u8)),
        is_block((0xc000_0000u32, 24u8)),
        is_block((0xc000_0200u32, 24u8)),
        is_block((0xc0a8_0000u32, 16u8)),
        is_block((0xc612_0000u32, 15u8)),
        is_block((0xc633_6400u32, 24u8)),
        is_block((0xcb00_7100u32, 24u8)),
        is_block((0xe000_0000u32, 4u8)),
        is_block((0xf000_0000u32, 4u8)),
        is_block((0xffff_ffffu32, 32u8)),
{
    assert(0x0000_0000u32 & !(u32::MAX << 24u32) == 0
        && 0x0a00_0000u32 & !(u32::MAX << 24u32) == 0
        && 0x6440_0000u32 & !(u32::MAX << 22u32) == 0
        && 0x7f00_0000u32 & !(u32::MAX << 24u32) == 0
        && 0xa9fe_0000u32 & !(u32::MAX << 16u32) == 0
        && 0xac10_0000u32 & !(u32::MAX << 20u32) == 0
        && 0xc000_0000u32 & !(u32::MAX << 8u32) == 0
        && 0xc000_0200u32 & !(u32::MAX << 8u32) == 0
        && 0xc0a8_0000u32 & !(u32::MAX << 16u32) == 0
        && 0xc612_0000u32 & !(u32::MAX << 17u32) == 0
        && 0xc633_6400u32 & !(u32::MAX << 8u32) == 0
        && 0xcb00_7100u32 & !(u32::MAX << 8u32) == 0
        && 0xe000_0000u32 & !(u32::MAX << 28u32) == 0
        && 0xf000_0000u32 & !(u32::MAX << 28u32) == 0
        && 0xffff_ffffu32 & !(u32::MAX << 0u32) == 0) by (bit_vector);
}

/// Each special-use network is a block in canonical form.
pub proof fn lemma_v4_table_is_canonical()
    ensures
        forall|i: int| 0 <= i < v4_bogon_table().len() ==> is_block(#[trigger] v4_bogon_table()[i]),
{
    lemma_v4_blocks();
}

/// Every address of a special-use network is bogus.
pub proof fn lemma_special_use_is_bogus(i: int, ip: u32)
    requires
        0 <= i < v4_bogon_table().len(),
        v4_bogon_table()[i].0 <= ip <= last_of(v4_bogon_table()[i]),
    ensures
        spec_is_bogon_v4(ip),
{
    lemma_v4_table_is_canonical();
    lemma_holds_is_range(v4_bogon_table()[i], ip);
}

/// An address is bogus exactly when it lies between the base and the highest
/// address of a special-use network.
pub proof fn lemma_bogus_is_special_use(ip: u32)
    ensures
        spec_is_bogon_v4(ip) <==> exists|j: int|
            0 <= j < v4_bogon_table().len() && (#[trigger] v4_bogon_table()[j]).0 <= ip
                <= last_of(v4_bogon_table()[j]),
{
    let table = v4_bogon_table();
    lemma_v4_table_is_canonical();
    if spec_is_bogon_v4(ip) {
        let j = choose|j: int| 0 <= j < table.len() && holds(#[trigger] table[j], ip);
        lemma_holds_is_range(table[j], ip);
    }
    if exists|j: int| 0 <= j < table.len() && (#[trigger] table[j]).0 <= ip <= last_of(table[j]) {
        let j = choose|j: int|
            0 <= j < table.len() && (#[trigger] table[j]).0 <= ip <= last_of(table[j]);
        lemma_holds_is_range(table[j], ip);
    }
}

/// The address right below a special-use network, or right above it, is bogus
/// exactly when it lies in another special-use network.
pub proof fn lemma_neighbour_of_special_use(i: int, ip: u32)
    requires
        0 <= i < v4_bogon_table().len(),
        ip + 1 == v4_bogon_table()[i].0 || ip == last_of(v4_bogon_table()[i]) + 1,
    ensures
        spec_is_bogon_v4(ip) <==> exists|j: int|
            0 <= j < v4_bogon_table().len() && j != i && (#[trigger] v4_bogon_table()[j]).0 <= ip
                <= last_of(v4_bogon_table()[j]),
{
    let table = v4_bogon_table();
    lemma_v4_table_is_canonical();
    lemma_holds_is_range(table[i], ip);
    lemma_bogus_is_special_use(ip);
    if spec_is_bogon_v4(ip) {
        let j = choose|j: int|
            0 <= j < table.len() && (#[trigger] table[j]).0 <= ip <= last_of(table[j]);
        assert(j != i);
    }
}

/// The special-use networks of IPv4.
pub fn v4_bogon_networks() -> (table: [FourByteNetwork; 15])
    ensures
        is_table_of(table@, v4_bogon_table()),
{
    proof {
        lemma_v4_blocks();
    }
    [
        // "This network"
        FourByteNetwork::new(0x0000_0000, 8),
        // Private use
        FourByteNetwork::new(0x0a00_0000, 8),
        // Shared address space
        FourByteNetwork::new(0x6440_0000, 10),
        // Loopback
        FourByteNetwork::new(0x7f00_0000, 8),
        // Link local
        FourByteNetwork::new(0xa9fe_0000, 16),
        // Private use
        FourByteNetwork::new(0xac10_0000, 12),
        // IETF protocol assignments
        FourByteNetwork::new(0xc000_0000, 24),
        // Documentation (TEST-NET-1)
        FourByteNetwork::new(0xc000_0200, 24),
        // Private use
        FourByteNetwork::new(0xc0a8_0000, 16),
        // Benchmarking
        FourByteNetwork::new(0xc612_0000, 15),
        // Documentation (TEST-NET-2)
        FourByteNetwork::new(0xc633_6400, 24),
        // Documentation (TEST-NET-3)
        FourByteNetwork::new(0xcb00_7100, 24),
        // Multicast
        FourByteNetwork::new(0xe000_0000, 4),
        // Reserved
        FourByteNetwork::new(0xf000_0000, 4),
        // Limited broadcast
        FourByteNetwork::new(0xffff_ffff, 32),
    ]
}

/// Whether the IPv6 address with the bits `ip` is a global unicast address:
/// one that starts with the bits `001`.
pub open spec fn is_global_unicast(ip: u128) -> bool {
    ip >> 125 == 1
}

/// Whether the IPv6 address with the bits `ip` is bogus: it is no global
/// unicast address, or it lies in no allocated block.
pub open spec fn spec_is_bogon_v6(ip: u128) -> bool {
    !is_global_unicast(ip) || !table_matches(v6_allocation_table(), (ip >> 96) as u32)
}

/// Whether the address is bogus.
pub open spec fn spec_is_bogon(ip: IpAddress) -> bool {
    match ip {
        IpAddress::V4(bits) => spec_is_bogon_v4(bits),
        IpAddress::V6(bits) => spec_is_bogon_v6(bits),
    }
}

/// What the test of a text gives: whether the address that it writes is
/// bogus, or an error if it writes none.
pub open spec fn spec_classify(parsed: Option<IpAddress>) -> Result<bool, AddrParseError> {
    match parsed {
        Some(ip) => Ok(spec_is_bogon(ip)),
        None => Err(AddrParseError {  }),
    }
}

/// The global unicast addresses are those of `2000::/3`: the addresses from
/// `2000::` to `3fff:ffff:ffff:ffff:ffff:ffff:ffff:ffff`.
pub proof fn lemma_global_unicast_is_range(ip: u128)
    ensures
        is_global_unicast(ip) <==> 0x2000_0000_0000_0000_0000_0000_0000_0000 <= ip
            <= 0x3fff_ffff_ffff_ffff_ffff_ffff_ffff_ffff,
{
    assert(ip >> 125 == 1 <==> 0x2000_0000_0000_0000_0000_0000_0000_0000 <= ip
        <= 0x3fff_ffff_ffff_ffff_ffff_ffff_ffff_ffff) by (bit_vector);
}

/// An IPv6 address is bogus unless it is a global unicast address in a block
/// that the registry lists as allocated to a regional registry.
pub proof fn lemma_bogus_v6_is_unallocated(ip: u128)
    ensures
        spec_is_bogon_v6(ip) <==> !(is_global_unicast(ip) && covered_by(registry_blocks(), ip)),
{
    lemma_table_holds_registry(ip);
}

/// Whether some network of `table` holds the IPv4 address `ip`.
fn any_contains_v4(table: &[FourByteNetwork], ip: u32, Ghost(pairs): Ghost<Seq<(u32, u8)>>) -> (r:
    bool)
    requires
        is_table_of(table@, pairs),
    ensures
        r == table_matches(pairs, ip),
{
    let mut i: usize = 0;
    while i < table.len()
        invariant
            i <= table.len(),
            is_table_of(table@, pairs),
            forall|j: int| 0 <= j < i ==> !holds(#[trigger] pairs[j], ip),
        decreases table.len() - i,
    {
        if table[i].contains_v4(ip) {
            return true;
        }
        i += 1;
    }
    false
}

/// Whether some network of `table` holds the IPv6 address `ip`.
fn any_contains_v6(table: &[FourByteNetwork], ip: u128, Ghost(pairs): Ghost<Seq<(u32, u8)>>) -> (r:
    bool)
    requires
        is_table_of(table@, pairs),
    ensures
        r == table_matches(pairs, (ip >> 96) as u32),
{
    let ghost top = (ip >> 96) as u32;
    let mut i: usize = 0;
    while i < table.len()
        invariant
            i <= table.len(),
            is_table_of(table@, pairs),
            top == (ip >> 96) as u32,
            forall|j: int| 0 <= j < i ==> !holds(#[trigger] pairs[j], top),
        decreases table.len() - i,
    {
        if table[i].contains_v6(ip) {
            return true;
        }
        i += 1;
    }
    false
}

/// Returns a boolean indicating whether an IP address is bogus.
///
/// Returns `true` if the IP address is bogus, and `false` if it is good.
pub fn is_bogon(ip_address: IpAddress) -> (bogon: bool)
    ensures
        bogon == spec_is_bogon(ip_address),
{
    match ip_address {
        IpAddress::V4(ip) => is_bogon_v4(ip),
        IpAddress::V6(ip) => is_bogon_v6(ip),
    }
}

/// Says whether a parsed address is bogus, and hands on the failure to parse.
pub fn classify_parsed(parsed: Option<IpAddress>) -> (bogon: Result<bool, AddrParseError>)
    ensures
        bogon == spec_classify(parsed),
{
    match parsed {
        Some(ip) => Ok(is_bogon(ip)),
        None => Err(AddrParseError {  }),
    }
}

/// Returns a boolean indicating whether the IP address that a text writes is
/// bogus.
///
/// Returns an error if the text writes no IP address, `Ok(true)` if the
/// address is bogus, and `Ok(false)` if it is good.
pub fn is_bogon_str(ip_address: &str) -> (bogon: Result<bool, AddrParseError>)
    ensures
        bogon == spec_classify(address_of(ip_address.spec_bytes())),
{
    classify_parsed(read_address(ip_address.as_bytes()))
}

/// Returns a boolean indicating whether the IPv4 address with the bits
/// `ip_address` is bogus.
pub fn is_bogon_v4(ip_address: u32) -> (bogon: bool)
    ensures
        bogon == spec_is_bogon_v4(ip_address),
{
    let table = v4_bogon_networks();
    any_contains_v4(&table, ip_address, Ghost(v4_bogon_table()))
}

/// Returns a boolean indicating whether the IPv6 address with the bits
/// `ip_address` is bogus.
pub fn is_bogon_v6(ip_address: u128) -> (bogon: bool)
    ensures
        bogon == spec_is_bogon_v6(ip_address),
{
    // An address outside of 2000::/3 is no global unicast address.
    if ip_address >> 125 != 1 {
        return true;
    }
    let table = v6_allocations();
    !any_contains_v6(&table, ip_address, Ghost(v6_allocation_table()))
}

} // verus!
