//! The table of the IPv6 blocks that are allocated to the regional
//! registries.
//!
//! The registry of IPv6 global unicast allocations lists the blocks that are
//! designated to each authority. The table is what
//! [`crate::compiler::compile`] gives for it: the blocks that are allocated to
//! a regional registry, merged, and each merged block held by the top 32 bits
//! of its base address.

use vstd::prelude::*;
use crate::cidr::{all_well_formed, block_points, covered_by, Ipv6Network};
use crate::compiler::{
    all_projectable, compiled_table, lemma_first_unprojectable, lemma_merged_networks,
    lemma_projection_keeps_addresses, merged_networks, projected, CompileError,
};
use crate::interval::lemma_is_maximal_ranges;
use crate::network::{is_block, is_table_of, table_matches, FourByteNetwork};
use crate::registry::{allocated_blocks, Ipv6Allocation};

mod certificate;

verus! {

/// The lowest address whose top 32 bits are `bits`.
pub open spec fn low(bits: u32) -> u128 {
    (bits * 0x1_0000_0000_0000_0000_0000_0000) as u128
}

/// The highest address whose top 32 bits are `bits`.
pub open spec fn high(bits: u32) -> u128 {
    (bits * 0x1_0000_0000_0000_0000_0000_0000 + 0xffff_ffff_ffff_ffff_ffff_ffff) as u128
}

/// The block of the given prefix length whose base has the top 32 bits
/// `bits`, and no other bit set.
pub open spec fn net(bits: u32, prefix: u8) -> Ipv6Network {
    Ipv6Network { base: low(bits), prefix }
}

/// The blocks that the registry of IPv6 global unicast allocations lists as
/// allocated to one of the regional registries, in the order of the registry.
pub open spec fn registry_blocks() -> Seq<Ipv6Network> {
    seq![
        net(0x2001_0200, 23),  // APNIC
        net(0x2001_0400, 23),  // ARIN
        net(0x2001_0600, 23),  // RIPE NCC
        net(0x2001_0800, 22),  // RIPE NCC
        net(0x2001_0c00, 23),  // APNIC
        net(0x2001_0e00, 23),  // APNIC
        net(0x2001_1200, 23),  // LACNIC
        net(0x2001_1400, 22),  // RIPE NCC
        net(0x2001_1800, 23),  // ARIN
        net(0x2001_1a00, 23),  // RIPE NCC
        net(0x2001_1c00, 22),  // RIPE NCC
        net(0x2001_2000, 19),  // RIPE NCC
        net(0x2001_4000, 23),  // RIPE NCC
        net(0x2001_4200, 23),  // AFRINIC
        net(0x2001_4400, 23),  // APNIC
        net(0x2001_4600, 23),  // RIPE NCC
        net(0x2001_4800, 23),  // ARIN
        net(0x2001_4a00, 23),  // RIPE NCC
        net(0x2001_4c00, 23),  // RIPE NCC
        net(0x2001_5000, 20),  // RIPE NCC
        net(0x2001_8000, 19),  // APNIC
        net(0x2001_a000, 20),  // APNIC
        net(0x2001_b000, 20),  // APNIC
        net(0x2003_0000, 18),  // RIPE NCC
        net(0x2400_0000, 12),  // APNIC
        net(0x2600_0000, 12),  // ARIN
        net(0x2610_0000, 23),  // ARIN
        net(0x2620_0000, 23),  // ARIN
        net(0x2630_0000, 12),  // ARIN
        net(0x2800_0000, 12),  // LACNIC
        net(0x2a00_0000, 12),  // RIPE NCC
        net(0x2a10_0000, 12),  // RIPE NCC
        net(0x2c00_0000, 12),  // AFRINIC
    ]
}

/// The blocks that the registry's blocks merge into, in the order of the
/// addresses.
pub open spec fn registry_networks() -> Seq<Ipv6Network> {
    seq![
        net(0x2001_0200, 23),
        net(0x2001_0400, 22),
        net(0x2001_0800, 21),
        net(0x2001_1200, 23),
        net(0x2001_1400, 22),
        net(0x2001_1800, 21),
        net(0x2001_2000, 19),
        net(0x2001_4000, 21),
        net(0x2001_4800, 22),
        net(0x2001_4c00, 23),
        net(0x2001_5000, 20),
        net(0x2001_8000, 18),
        net(0x2003_0000, 18),
        net(0x2400_0000, 12),
        net(0x2600_0000, 12),
        net(0x2610_0000, 23),
        net(0x2620_0000, 23),
        net(0x2630_0000, 12),
        net(0x2800_0000, 12),
        net(0x2a00_0000, 11),
        net(0x2c00_0000, 12),
    ]
}

/// The allocated blocks of IPv6, each as the top 32 bits of its base address
/// and its prefix length, in the order of the addresses.
pub open spec fn v6_allocation_table() -> Seq<(u32, u8)> {
    seq![
        (0x2001_0200u32, 23u8),
        (0x2001_0400u32, 22u8),
        (0x2001_0800u32, 21u8),
        (0x2001_1200u32, 23u8),
        (0x2001_1400u32, 22u8),
        (0x2001_1800u32, 21u8),
        (0x2001_2000u32, 19u8),
        (0x2001_4000u32, 21u8),
        (0x2001_4800u32, 22u8),
        (0x2001_4c00u32, 23u8),
        (0x2001_5000u32, 20u8),
        (0x2001_8000u32, 18u8),
        (0x2003_0000u32, 18u8),
        (0x2400_0000u32, 12u8),
        (0x2600_0000u32, 12u8),
        (0x2610_0000u32, 23u8),
        (0x2620_0000u32, 23u8),
        (0x2630_0000u32, 12u8),
        (0x2800_0000u32, 12u8),
        (0x2a00_0000u32, 11u8),
        (0x2c00_0000u32, 12u8),
    ]
}

/// Each allocated block, by its numbers, is a block in canonical form.
proof fn lemma_v6_blocks()
    ensures
        is_block((0x2001_0200u32, 23u8)),
        is_block((0x2001_0400u32, 22u8)),
        is_block((0x2001_0800u32, 21u8)),
        is_block((0x2001_1200u32, 23u8)),
        is_block((0x2001_1400u32, 22u8)),
        is_block((0x2001_1800u32, 21u8)),
        is_block((0x2001_2000u32, 19u8)),
        is_block((0x2001_4000u32, 21u8)),
        is_block((0x2001_4800u32, 22u8)),
        is_block((0x2001_4c00u32, 23u8)),
        is_block((0x2001_5000u32, 20u8)),
        is_block((0x2001_8000u32, 18u8)),
        is_block((0x2003_0000u32, 18u8)),
        is_block((0x2400_0000u32, 12u8)),
        is_block((0x2600_0000u32, 12u8)),
        is_block((0x2610_0000u32, 23u8)),
        is_block((0x2620_0000u32, 23u8)),
        is_block((0x2630_0000u32, 12u8)),
        is_block((0x2800_0000u32, 12u8)),
        is_block((0x2a00_0000u32, 11u8)),
        is_block((0x2c00_0000u32, 12u8)),
{
    assert(0x2001_0200u32 & !(u32::MAX << 9u32) == 0
        && 0x2001_0400u32 & !(u32::MAX << 10u32) == 0
        && 0x2001_0800u32 & !(u32::MAX << 11u32) == 0
        && 0x2001_1200u32 & !(u32::MAX << 9u32) == 0
        && 0x2001_1400u32 & !(u32::MAX << 10u32) == 0
        && 0x2001_1800u32 & !(u32::MAX << 11u32) == 0
        && 0x2001_2000u32 & !(u32::MAX << 13u32) == 0
        && 0x2001_4000u32 & !(u32::MAX << 11u32) == 0
        && 0x2001_4800u32 & !(u32::MAX << 10u32) == 0
        && 0x2001_4c00u32 & !(u32::MAX << 9u32) == 0
        && 0x2001_5000u32 & !(u32::MAX << 12u32) == 0
        && 0x2001_8000u32 & !(u32::MAX << 14u32) == 0
        && 0x2003_0000u32 & !(u32::MAX << 14u32) == 0
        && 0x2400_0000u32 & !(u32::MAX << 20u32) == 0
        && 0x2600_0000u32 & !(u32::MAX << 20u32) == 0
        && 0x2610_0000u32 & !(u32::MAX << 9u32) == 0
        && 0x2620_0000u32 & !(u32::MAX << 9u32) == 0
        && 0x2630_0000u32 & !(u32::MAX << 20u32) == 0
        && 0x2800_0000u32 & !(u32::MAX << 20u32) == 0
        && 0x2a00_0000u32 & !(u32::MAX << 21u32) == 0
        && 0x2c00_0000u32 & !(u32::MAX << 20u32) == 0) by (bit_vector);
}

/// The allocated blocks of IPv6.
pub fn v6_allocations() -> (table: [FourByteNetwork; 21])
    ensures
        is_table_of(table@, v6_allocation_table()),
{
    proof {
        lemma_v6_blocks();
    }
    [
        FourByteNetwork::new(0x2001_0200, 23),
        FourByteNetwork::new(0x2001_0400, 22),
        FourByteNetwork::new(0x2001_0800, 21),
        FourByteNetwork::new(0x2001_1200, 23),
        FourByteNetwork::new(0x2001_1400, 22),
        FourByteNetwork::new(0x2001_1800, 21),
        FourByteNetwork::new(0x2001_2000, 19),
        FourByteNetwork::new(0x2001_4000, 21),
        FourByteNetwork::new(0x2001_4800, 22),
        FourByteNetwork::new(0x2001_4c00, 23),
        FourByteNetwork::new(0x2001_5000, 20),
        FourByteNetwork::new(0x2001_8000, 18),
        FourByteNetwork::new(0x2003_0000, 18),
        FourByteNetwork::new(0x2400_0000, 12),
        FourByteNetwork::new(0x2600_0000, 12),
        FourByteNetwork::new(0x2610_0000, 23),
        FourByteNetwork::new(0x2620_0000, 23),
        FourByteNetwork::new(0x2630_0000, 12),
        FourByteNetwork::new(0x2800_0000, 12),
        FourByteNetwork::new(0x2a00_0000, 11),
        FourByteNetwork::new(0x2c00_0000, 12),
    ]
}

/// The table of allocated blocks is what compiling the blocks of the registry
/// gives: the blocks merged, and each merged block brought down to 32 bits.
/// None of the merged blocks has a prefix of more than 32 bits.
pub proof fn lemma_table_is_compiled()
    ensures
        all_well_formed(registry_blocks()),
        merged_networks(registry_blocks()) == registry_networks(),
        all_projectable(registry_networks()),
        projected(registry_networks()) == v6_allocation_table(),
{
    certificate::lemma_registry_ranges();
    certificate::lemma_registry_runs();
    lemma_is_maximal_ranges(certificate::registry_runs(), certificate::registry_ranges());
    certificate::lemma_registry_networks();
    let networks = registry_networks();
    assert((low(0x2001_0200) >> 96u128) as u32 == 0x2001_0200u32
        && (low(0x2001_0400) >> 96u128) as u32 == 0x2001_0400u32
        && (low(0x2001_0800) >> 96u128) as u32 == 0x2001_0800u32
        && (low(0x2001_1200) >> 96u128) as u32 == 0x2001_1200u32
        && (low(0x2001_1400) >> 96u128) as u32 == 0x2001_1400u32
        && (low(0x2001_1800) >> 96u128) as u32 == 0x2001_1800u32
        && (low(0x2001_2000) >> 96u128) as u32 == 0x2001_2000u32
        && (low(0x2001_4000) >> 96u128) as u32 == 0x2001_4000u32
        && (low(0x2001_4800) >> 96u128) as u32 == 0x2001_4800u32
        && (low(0x2001_4c00) >> 96u128) as u32 == 0x2001_4c00u32
        && (low(0x2001_5000) >> 96u128) as u32 == 0x2001_5000u32
        && (low(0x2001_8000) >> 96u128) as u32 == 0x2001_8000u32
        && (low(0x2003_0000) >> 96u128) as u32 == 0x2003_0000u32
        && (low(0x2400_0000) >> 96u128) as u32 == 0x2400_0000u32
        && (low(0x2600_0000) >> 96u128) as u32 == 0x2600_0000u32
        && (low(0x2610_0000) >> 96u128) as u32 == 0x2610_0000u32
        && (low(0x2620_0000) >> 96u128) as u32 == 0x2620_0000u32
        && (low(0x2630_0000) >> 96u128) as u32 == 0x2630_0000u32
        && (low(0x2800_0000) >> 96u128) as u32 == 0x2800_0000u32
        && (low(0x2a00_0000) >> 96u128) as u32 == 0x2a00_0000u32
        && (low(0x2c00_0000) >> 96u128) as u32 == 0x2c00_0000u32) by (bit_vector);
    assert forall|i: int| 0 <= i < networks.len() implies (#[trigger] networks[i]).prefix <= 32 && (
        (networks[i].base >> 96) as u32,
        networks[i].prefix,
    ) == v6_allocation_table()[i] by {}
    assert(projected(networks) =~= v6_allocation_table());
}

/// The table holds the addresses of the blocks of the registry, and no
/// others: it matches the top 32 bits of an address exactly when the address
/// lies in a block that the registry lists as allocated.
pub proof fn lemma_table_holds_registry(a: u128)
    ensures
        table_matches(v6_allocation_table(), (a >> 96) as u32) <==> covered_by(
            registry_blocks(),
            a,
        ),
{
    lemma_table_is_compiled();
    certificate::lemma_registry_ranges();
    certificate::lemma_registry_runs();
    lemma_merged_networks(registry_blocks(), certificate::registry_runs());
    lemma_projection_keeps_addresses(registry_networks(), a);
    assert(block_points(registry_networks()).contains(a) == block_points(
        registry_blocks(),
    ).contains(a));
}

/// Records whose allocated blocks are those of the registry compile to the
/// table.
pub proof fn lemma_registry_compiles_to_table(records: Seq<Ipv6Allocation>)
    requires
        allocated_blocks(records) == registry_blocks(),
    ensures
        compiled_table(records) == Ok::<Seq<(u32, u8)>, CompileError>(v6_allocation_table()),
{
    lemma_table_is_compiled();
    lemma_first_unprojectable(registry_networks());
    assert(registry_blocks().len() == 33);
}

} // verus!
