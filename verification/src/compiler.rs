//! The compiler of the allocation table.
//!
//! It takes the blocks that a registry feed lists as allocated and gives the
//! table that addresses are matched against: the blocks are merged where they
//! overlap or touch, each merged range is cut into CIDR blocks again, blocks
//! that lie within another are dropped, and what is left is brought down to
//! 32 bits, in the order of the addresses.

use vstd::prelude::*;
use crate::cidr::{
    all_well_formed, block_points, covered_by, lemma_covers_own_base,
    lemma_projection_is_lossless, lemma_projection_keeps_order, pairwise_disjoint, ranges_of,
    Ipv6Network,
};
use crate::decompose::{
    ascending, decompose_each, lemma_ascending_disjoint, lemma_decompose_each,
    lemma_ranges_of_blocks, range_to_networks,
};
use crate::interval::{
    covered, is_merged, lemma_is_maximal_ranges, lemma_maximal_ranges_exist, maximal_ranges,
    merge_intervals, points, sorted_by_start,
};
use crate::network::{holds, is_table_of, last_of, rising, table_matches, FourByteNetwork};
use crate::registry::{allocated_blocks, allocated_networks, is_allocated, Ipv6Allocation};
use crate::sorting::{
    in_order, lemma_order_is_unique, lemma_same_blocks_disjoint, lemma_same_blocks_same_points,
    sort_key, sort_networks, NetworkOrder,
};
use crate::subnets::{lemma_retain_disjoint, remove_subnets, retain_uncovered};

verus! {

/// The blocks that stand for the addresses of `blocks`: the maximal runs of
/// those addresses, each cut into the widest blocks that fit, in rising
/// order.
pub open spec fn merged_networks(blocks: Seq<Ipv6Network>) -> Seq<Ipv6Network> {
    decompose_each(maximal_ranges(ranges_of(blocks)))
}

/// The merged blocks are what the maximal runs `merged` of the addresses of
/// `blocks` are cut into. They hold the addresses of the blocks that went in,
/// and no others; no two of them share an address; and they are well formed,
/// and each ends before the next starts.
pub proof fn lemma_merged_networks(blocks: Seq<Ipv6Network>, merged: Seq<(u128, u128)>)
    requires
        all_well_formed(blocks),
        is_merged(merged, ranges_of(blocks)),
    ensures
        merged_networks(blocks) == decompose_each(merged),
        all_well_formed(merged_networks(blocks)),
        pairwise_disjoint(merged_networks(blocks)),
        ascending(merged_networks(blocks)),
        block_points(merged_networks(blocks)) == block_points(blocks),
{
    let networks = decompose_each(merged);
    lemma_is_maximal_ranges(merged, ranges_of(blocks));
    lemma_decompose_each(merged);
    lemma_ascending_disjoint(networks);
    lemma_ranges_of_blocks(blocks);
    assert(block_points(networks) =~= block_points(blocks)) by {
        assert forall|a: u128| block_points(networks).contains(a) == block_points(blocks).contains(
            a,
        ) by {
            assert(covered_by(networks, a) == covered(merged, a));
            assert(points(merged).contains(a) == covered(merged, a));
            assert(points(ranges_of(blocks)).contains(a) == covered(ranges_of(blocks), a));
            assert(covered(ranges_of(blocks), a) == covered_by(blocks, a));
        }
    }
}

/// Merging loses nothing and doubles nothing: the merged blocks hold the
/// addresses of the blocks that went in, and no others, and no two of them
/// share an address.
pub proof fn lemma_merging_is_lossless(blocks: Seq<Ipv6Network>)
    requires
        all_well_formed(blocks),
    ensures
        all_well_formed(merged_networks(blocks)),
        pairwise_disjoint(merged_networks(blocks)),
        ascending(merged_networks(blocks)),
        block_points(merged_networks(blocks)) == block_points(blocks),
{
    lemma_ranges_of_blocks(blocks);
    lemma_maximal_ranges_exist(ranges_of(blocks));
    lemma_merged_networks(blocks, maximal_ranges(ranges_of(blocks)));
}

/// The ranges of blocks in the order of their addresses are in the order of
/// their starts.
proof fn lemma_ranges_sorted(blocks: Seq<Ipv6Network>)
    requires
        in_order(NetworkOrder::ByAddress, blocks),
    ensures
        sorted_by_start(ranges_of(blocks)),
{
    let ranges = ranges_of(blocks);
    assert forall|i: int, j: int| 0 <= i <= j < ranges.len() implies (#[trigger] ranges[i]).0 <= (
    #[trigger] ranges[j]).0 by {
        assert(sort_key(NetworkOrder::ByAddress, blocks[i]) <= sort_key(
            NetworkOrder::ByAddress,
            blocks[j],
        ));
    }
}

/// Merged ranges of the blocks in some order are the maximal runs of the
/// addresses of the blocks in any order.
proof fn lemma_merged_of_sorted(
    blocks: Seq<Ipv6Network>,
    sorted: Seq<Ipv6Network>,
    merged: Seq<(u128, u128)>,
)
    requires
        all_well_formed(blocks),
        sorted.to_multiset() == blocks.to_multiset(),
        is_merged(merged, ranges_of(sorted)),
    ensures
        merged == maximal_ranges(ranges_of(blocks)),
        forall|a: u128| covered(merged, a) <==> covered_by(blocks, a),
{
    lemma_same_blocks_same_points(blocks, sorted);
    lemma_ranges_of_blocks(blocks);
    lemma_ranges_of_blocks(sorted);
    assert forall|a: u128| covered(merged, a) <==> covered_by(blocks, a) by {
        assert(points(merged).contains(a) == covered(merged, a));
        assert(points(ranges_of(sorted)).contains(a) == covered(ranges_of(sorted), a));
        assert(covered(ranges_of(sorted), a) == covered_by(sorted, a));
        assert(covered_by(sorted, a) == covered_by(blocks, a));
    }
    assert(points(merged) =~= points(ranges_of(blocks))) by {
        assert forall|a: u128| points(merged).contains(a) == points(ranges_of(blocks)).contains(
            a,
        ) by {
            assert(points(merged).contains(a) == covered(merged, a));
            assert(points(ranges_of(blocks)).contains(a) == covered(ranges_of(blocks), a));
            assert(covered(ranges_of(blocks), a) == covered_by(blocks, a));
        }
    }
    lemma_is_maximal_ranges(merged, ranges_of(blocks));
}

/// The blocks that merged ranges are cut into pass the later stages
/// unchanged: sorted by prefix, none lies within another, and sorted by
/// address they stand as they stood.
proof fn lemma_stages_keep_blocks(
    cut: Seq<Ipv6Network>,
    by_prefix: Seq<Ipv6Network>,
    kept: Seq<Ipv6Network>,
    by_address: Seq<Ipv6Network>,
)
    requires
        all_well_formed(cut),
        ascending(cut),
        by_prefix.to_multiset() == cut.to_multiset(),
        kept == retain_uncovered(by_prefix),
        by_address.to_multiset() == kept.to_multiset(),
        in_order(NetworkOrder::ByAddress, by_address),
    ensures
        by_address == cut,
        pairwise_disjoint(cut),
{
    lemma_ascending_disjoint(cut);
    lemma_same_blocks_same_points(cut, by_prefix);
    lemma_same_blocks_disjoint(cut, by_prefix);
    lemma_retain_disjoint(by_prefix);
    lemma_order_is_unique(NetworkOrder::ByAddress, by_address, cut);
}

/// The range of each block, in the order of the blocks.
fn ranges_of_networks(networks: &Vec<Ipv6Network>) -> (ranges: Vec<(u128, u128)>)
    ensures
        ranges@ == ranges_of(networks@),
{
    let mut ranges: Vec<(u128, u128)> = Vec::new();
    let mut i: usize = 0;
    while i < networks.len()
        invariant
            i <= networks.len(),
            ranges.len() == i,
            forall|k: int|
                0 <= k < i ==> (#[trigger] ranges@[k]) == (networks@[k].base, networks@[k].last()),
        decreases networks.len() - i,
    {
        ranges.push((networks[i].network(), networks[i].broadcast()));
        i += 1;
    }
    assert(ranges@ =~= ranges_of(networks@));
    ranges
}

/// The blocks that each of the ranges is cut into, range after range.
fn decompose_ranges(ranges: &Vec<(u128, u128)>) -> (networks: Vec<Ipv6Network>)
    ensures
        networks@ == decompose_each(ranges@),
{
    let mut networks: Vec<Ipv6Network> = Vec::new();
    let mut i: usize = 0;
    while i < ranges.len()
        invariant
            i <= ranges.len(),
            networks@ == decompose_each(ranges@.take(i as int)),
        decreases ranges.len() - i,
    {
        let mut part = range_to_networks(ranges[i]);
        proof {
            assert(ranges@.take(i + 1).drop_last() == ranges@.take(i as int));
        }
        networks.append(&mut part);
        i += 1;
    }
    assert(ranges@.take(i as int) == ranges@);
    networks
}

/// Merges blocks that may overlap or touch: the blocks are merged into
/// maximal ranges, each range is cut into the widest blocks that fit, and
/// blocks that lie within another are dropped. No address is gained or lost,
/// no two of the blocks that come out share an address, and they come out in
/// the order of their addresses.
pub fn merge_ranges(ranges: &Vec<Ipv6Network>) -> (networks: Vec<Ipv6Network>)
    requires
        ranges.len() > 0,
        all_well_formed(ranges@),
    ensures
        networks@ == merged_networks(ranges@),
        all_well_formed(networks@),
        pairwise_disjoint(networks@),
        ascending(networks@),
        block_points(networks@) == block_points(ranges@),
        networks.len() > 0,
{
    let sorted = sort_networks(ranges, NetworkOrder::ByAddress);
    let spans = ranges_of_networks(&sorted);
    proof {
        lemma_same_blocks_same_points(ranges@, sorted@);
        lemma_ranges_of_blocks(sorted@);
        lemma_ranges_sorted(sorted@);
    }
    let merged = merge_intervals(&spans);
    let cut = decompose_ranges(&merged);
    let by_prefix = sort_networks(&cut, NetworkOrder::ByPrefix);
    let kept = remove_subnets(&by_prefix);
    let networks = sort_networks(&kept, NetworkOrder::ByAddress);
    proof {
        lemma_merged_of_sorted(ranges@, sorted@, merged@);
        lemma_decompose_each(merged@);
        lemma_stages_keep_blocks(cut@, by_prefix@, kept@, networks@);
        assert(block_points(networks@) =~= block_points(ranges@)) by {
            assert forall|a: u128| block_points(networks@).contains(a) == block_points(
                ranges@,
            ).contains(a) by {
                assert(covered_by(cut@, a) == covered(merged@, a));
                assert(covered(merged@, a) == covered_by(ranges@, a));
            }
        }
        assert(networks.len() > 0) by {
            let first = ranges@[0];
            lemma_covers_own_base(first);
            assert(covered_by(ranges@, first.base));
            assert(covered_by(networks@, first.base));
        }
    }
    networks
}

/// Why a table could not be compiled.
#[derive(Debug, Clone, Copy, PartialEq, Eq, Structural)]
pub enum CompileError {
    /// No record counts as allocated.
    EmptyAllocationSet,
    /// The block has a prefix of more than 32 bits, so that its top 32 bits
    /// do not tell its addresses from others.
    NotProjectable(Ipv6Network),
}

/// The top 32 bits of the base and the prefix length of each block.
pub open spec fn projected(networks: Seq<Ipv6Network>) -> Seq<(u32, u8)> {
    Seq::new(networks.len(), |i: int| ((networks[i].base >> 96) as u32, networks[i].prefix))
}

/// The first block with a prefix of more than 32 bits, if there is one.
pub open spec fn first_unprojectable(networks: Seq<Ipv6Network>) -> Option<Ipv6Network>
    decreases networks.len(),
{
    if networks.len() == 0 {
        None
    } else {
        match first_unprojectable(networks.drop_last()) {
            Some(block) => Some(block),
            None => if networks.last().prefix > 32 {
                Some(networks.last())
            } else {
                None
            },
        }
    }
}

/// What compiling the records gives: the table, by the base and prefix length
/// of each entry, or the reason why there is none.
pub open spec fn compiled_table(records: Seq<Ipv6Allocation>) -> Result<
    Seq<(u32, u8)>,
    CompileError,
> {
    let blocks = allocated_blocks(records);
    if blocks.len() == 0 {
        Err(CompileError::EmptyAllocationSet)
    } else {
        match first_unprojectable(merged_networks(blocks)) {
            Some(block) => Err(CompileError::NotProjectable(block)),
            None => Ok(projected(merged_networks(blocks))),
        }
    }
}

/// Every prefix is at most 32 bits long.
pub open spec fn all_projectable(networks: Seq<Ipv6Network>) -> bool {
    forall|i: int| 0 <= i < networks.len() ==> (#[trigger] networks[i]).prefix <= 32
}

/// There is no first block with a prefix of more than 32 bits exactly when
/// every prefix is at most 32 bits long.
pub proof fn lemma_first_unprojectable(networks: Seq<Ipv6Network>)
    ensures
        first_unprojectable(networks) is None <==> all_projectable(networks),
        first_unprojectable(networks) matches Some(block) ==> block.prefix > 32
            && networks.contains(block),
    decreases networks.len(),
{
    if networks.len() > 0 {
        let before = networks.drop_last();
        lemma_first_unprojectable(before);
        assert forall|i: int| 0 <= i < before.len() implies (#[trigger] before[i])
            == networks[i] by {}
        match first_unprojectable(before) {
            Some(block) => {
                let i = choose|i: int| 0 <= i < before.len() && before[i] == block;
                assert(networks[i] == block);
            },
            None => {
                if networks.last().prefix <= 32 {
                    assert forall|i: int| 0 <= i < networks.len() implies (
                    #[trigger] networks[i]).prefix <= 32 by {
                        if i < before.len() {
                            assert(before[i].prefix <= 32);
                        }
                    }
                } else {
                    assert(networks[networks.len() - 1] == networks.last());
                }
            },
        }
    }
}

/// The table of projected blocks matches the top 32 bits of exactly the
/// addresses of the blocks: bringing the blocks down to 32 bits loses
/// nothing.
pub proof fn lemma_projection_keeps_addresses(networks: Seq<Ipv6Network>, a: u128)
    requires
        all_well_formed(networks),
        all_projectable(networks),
    ensures
        table_matches(projected(networks), (a >> 96) as u32) <==> covered_by(networks, a),
{
    let pairs = projected(networks);
    let top = (a >> 96) as u32;
    if table_matches(pairs, top) {
        let i = choose|i: int| 0 <= i < pairs.len() && holds(#[trigger] pairs[i], top);
        assert(networks[i].prefix <= 32);
        lemma_projection_is_lossless(networks[i], a);
        assert(networks[i].covers(a));
    }
    if covered_by(networks, a) {
        let i = choose|i: int| 0 <= i < networks.len() && (#[trigger] networks[i]).covers(a);
        lemma_projection_is_lossless(networks[i], a);
        assert(holds(pairs[i], top));
    }
}

/// Blocks of which each ends before the next starts are still so when they
/// are brought down to 32 bits.
pub proof fn lemma_projected_rising(networks: Seq<Ipv6Network>)
    requires
        all_well_formed(networks),
        all_projectable(networks),
        ascending(networks),
    ensures
        rising(projected(networks)),
{
    let table = projected(networks);
    assert forall|i: int, j: int| 0 <= i < j < table.len() implies last_of(#[trigger] table[i]) < (
    #[trigger] table[j]).0 by {
        assert(networks[i].last() < networks[j].base);
        lemma_projection_keeps_order(networks[i], networks[j]);
    }
}

/// Brings a block down to 32 bits: the top 32 bits of its base, under its
/// prefix length. A block with a prefix of more than 32 bits has no such
/// form.
pub fn four_byte_network(ip: &Ipv6Network) -> (projection: Option<FourByteNetwork>)
    requires
        ip.well_formed(),
    ensures
        match projection {
            Some(network) => {
                &&& ip.prefix <= 32
                &&& network.well_formed()
                &&& network@ == ((ip.base >> 96) as u32, ip.prefix)
            },
            None => ip.prefix > 32,
        },
{
    if ip.prefix > 32 {
        None
    } else {
        let base = ip.base;
        let top: u128 = base >> 96;
        assert(top <= 0xffff_ffff) by (bit_vector)
            requires
                top == base >> 96,
        ;
        proof {
            lemma_projection_is_lossless(*ip, 0);
        }
        Some(FourByteNetwork::new(top as u32, ip.prefix))
    }
}

/// Compiles the records of the registry into the table of allocated blocks:
/// the records that count are chosen, their blocks merged, and each merged
/// block brought down to 32 bits. There is no table if no record counts, or
/// if a merged block has a prefix of more than 32 bits.
pub fn compile(records: &Vec<Ipv6Allocation>) -> (compiled: Result<
    Vec<FourByteNetwork>,
    CompileError,
>)
    requires
        forall|i: int| 0 <= i < records.len() ==> (#[trigger] records@[i]).prefix.well_formed(),
    ensures
        match (compiled, compiled_table(records@)) {
            (Ok(table), Ok(pairs)) => is_table_of(table@, pairs) && rising(pairs),
            (Err(error), Err(expected)) => error == expected,
            _ => false,
        },
{
    let blocks = allocated_networks(records);
    if blocks.len() == 0 {
        return Err(CompileError::EmptyAllocationSet);
    }
    proof {
        assert forall|i: int| 0 <= i < blocks@.len() implies (#[trigger] blocks@[i]).well_formed() by {
            lemma_allocated_block_is_listed(records@, i);
        }
    }
    let networks = merge_ranges(&blocks);
    let mut table: Vec<FourByteNetwork> = Vec::new();
    let mut i: usize = 0;
    while i < networks.len()
        invariant
            i <= networks.len(),
            all_well_formed(networks@),
            ascending(networks@),
            blocks@.len() > 0,
            blocks@ == allocated_blocks(records@),
            networks@ == merged_networks(blocks@),
            first_unprojectable(networks@.take(i as int)) is None,
            is_table_of(table@, projected(networks@.take(i as int))),
        decreases networks.len() - i,
    {
        proof {
            assert(networks@.take(i + 1).drop_last() == networks@.take(i as int));
        }
        match four_byte_network(&networks[i]) {
            Some(network) => {
                table.push(network);
            },
            None => {
                proof {
                    lemma_unprojectable_stays(networks@, i + 1);
                }
                return Err(CompileError::NotProjectable(networks[i]));
            },
        }
        i += 1;
    }
    assert(networks@.take(i as int) == networks@);
    proof {
        lemma_first_unprojectable(networks@);
        lemma_projected_rising(networks@);
    }
    Ok(table)
}

/// Each block that counts as allocated is the block of a record.
proof fn lemma_allocated_block_is_listed(records: Seq<Ipv6Allocation>, i: int)
    requires
        0 <= i < allocated_blocks(records).len(),
    ensures
        exists|j: int|
            0 <= j < records.len() && (#[trigger] records[j]).prefix == allocated_blocks(
                records,
            )[i],
{
    let counts = |record: Ipv6Allocation| is_allocated(record);
    let chosen = records.filter(counts);
    assert(chosen.contains(chosen[i]));
    records.lemma_filter_contains_rev(counts, chosen[i]);
    let j = choose|j: int| 0 <= j < records.len() && records[j] == chosen[i];
    assert(records[j].prefix == allocated_blocks(records)[i]);
}

/// The first block with too long a prefix among the first `n` blocks is the
/// first among all of them.
proof fn lemma_unprojectable_stays(networks: Seq<Ipv6Network>, n: int)
    requires
        0 <= n <= networks.len(),
        first_unprojectable(networks.take(n)) is Some,
    ensures
        first_unprojectable(networks) == first_unprojectable(networks.take(n)),
    decreases networks.len() - n,
{
    if n < networks.len() {
        assert(networks.take(n + 1).drop_last() == networks.take(n));
        lemma_unprojectable_stays(networks, n + 1);
    } else {
        assert(networks.take(n) == networks);
    }
}

} // verus!
