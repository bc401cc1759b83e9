//! Decomposition of a range of addresses into CIDR blocks.
//!
//! A range need not start or end on a block boundary. It is cut into blocks
//! from its lowest address upward, each time taking the widest block that
//! starts at the current address, is aligned to its own size, and ends within
//! the range.

use vstd::prelude::*;
use crate::cidr::{
    all_well_formed, covered_by, free_bits, host_mask, lemma_covers_is_range,
    lemma_host_mask_grows, lemma_host_mask_nested, lemma_nested_blocks, pairwise_disjoint,
    ranges_of, Ipv6Network,
};
use crate::interval::{
    all_valid, covered, in_range, is_merged, lemma_covered_push, lemma_maximal_ranges_exist,
    lemma_merged_single, maximal_ranges, points, separated,
};
use crate::sorting::{in_order, sort_key, NetworkOrder};

verus! {

/// Whether the block of the given prefix length that starts at `start` is
/// aligned to its own size and ends at or before `end`.
pub open spec fn block_fits(start: u128, end: u128, prefix: u8) -> bool {
    &&& prefix <= 128
    &&& start & host_mask(prefix) == 0
    &&& host_mask(prefix) <= end - start
}

/// The shortest prefix that is reached from `prefix` by dropping one bit at a
/// time for as long as the block still fits.
pub open spec fn widen(start: u128, end: u128, prefix: u8) -> u8
    decreases prefix,
{
    if prefix > 0 && block_fits(start, end, (prefix - 1) as u8) {
        widen(start, end, (prefix - 1) as u8)
    } else {
        prefix
    }
}

/// The prefix length of the widest block that starts at `start` and fits the
/// range up to `end`.
pub open spec fn widest_prefix(start: u128, end: u128) -> u8 {
    widen(start, end, 128)
}

/// The blocks that the range from `start` to `end` is cut into, in rising
/// order. A range with `start > end` is empty and gives no block.
pub open spec fn decompose(start: u128, end: u128) -> Seq<Ipv6Network>
    decreases end - start,
{
    if start > end {
        Seq::empty()
    } else {
        let prefix = widest_prefix(start, end);
        let block = Ipv6Network { base: start, prefix };
        let step = host_mask(prefix);
        if step >= end - start {
            seq![block]
        } else {
            seq![block] + decompose((start + step + 1) as u128, end)
        }
    }
}

/// The blocks that each of `ranges` is cut into, range after range.
pub open spec fn decompose_each(ranges: Seq<(u128, u128)>) -> Seq<Ipv6Network>
    decreases ranges.len(),
{
    if ranges.len() == 0 {
        Seq::empty()
    } else {
        decompose_each(ranges.drop_last()) + decompose(ranges.last().0, ranges.last().1)
    }
}

/// Each block ends before any later one starts.
pub open spec fn ascending(blocks: Seq<Ipv6Network>) -> bool {
    forall|i: int, j: int|
        0 <= i < j < blocks.len() ==> (#[trigger] blocks[i]).last() < (#[trigger] blocks[j]).base
}

/// Whether `blocks` tile the range from `start` to `end`: they are well
/// formed, the first starts at `start`, each next one starts right behind the
/// one before, and the last ends at `end`.
pub open spec fn is_tiling(blocks: Seq<Ipv6Network>, start: u128, end: u128) -> bool {
    &&& blocks.len() > 0
    &&& all_well_formed(blocks)
    &&& blocks[0].base == start
    &&& blocks.last().last() == end
    &&& forall|i: int, j: int|
        0 <= i && j == i + 1 && j < blocks.len() ==> (#[trigger] blocks[i]).last() + 1 == (
        #[trigger] blocks[j]).base
}

/// The widest block that starts at `start` and fits the range up to `end`, by
/// its prefix length.
fn widest_block(start: u128, end: u128) -> (prefix: u8)
    requires
        start <= end,
    ensures
        prefix == widest_prefix(start, end),
{
    let span = end - start;
    let mut prefix: u8 = 128;
    while prefix > 0 && start & free_bits(prefix - 1) == 0 && free_bits(prefix - 1) <= span
        invariant
            prefix <= 128,
            span == end - start,
            widen(start, end, prefix) == widest_prefix(start, end),
        decreases prefix,
    {
        prefix -= 1;
    }
    prefix
}

/// Cuts the range from `range.0` to `range.1` into CIDR blocks, from the
/// lowest address upward, taking the widest block that fits each time.
pub fn range_to_networks(range: (u128, u128)) -> (networks: Vec<Ipv6Network>)
    ensures
        networks@ == decompose(range.0, range.1),
{
    let end = range.1;
    let mut networks: Vec<Ipv6Network> = Vec::new();
    if range.0 > end {
        return networks;
    }
    let mut start = range.0;
    loop
        invariant_except_break
            range.0 <= start <= end,
            end == range.1,
            networks@ + decompose(start, end) == decompose(range.0, range.1),
        ensures
            networks@ == decompose(range.0, range.1),
        decreases end - start,
    {
        let prefix = widest_block(start, end);
        let step = free_bits(prefix);
        let ghost before = networks@;
        networks.push(Ipv6Network { base: start, prefix });
        proof {
            lemma_widest_prefix(start, end);
        }
        if step >= end - start {
            break ;
        }
        proof {
            let next = (start + step + 1) as u128;
            assert(networks@ + decompose(next, end) == before + decompose(start, end));
        }
        start = start + step + 1;
    }
    networks
}

/// A block that fits still fits with a longer prefix.
pub proof fn lemma_fits_longer(start: u128, end: u128, q: u8, p: u8)
    requires
        start <= end,
        q <= p <= 128,
        block_fits(start, end, q),
    ensures
        block_fits(start, end, p),
{
    lemma_host_mask_nested(q, p, start);
}

/// The widest prefix gives a block that fits, and no shorter prefix does.
pub proof fn lemma_widest_prefix(start: u128, end: u128)
    requires
        start <= end,
    ensures
        block_fits(start, end, widest_prefix(start, end)),
        forall|q: u8| block_fits(start, end, q) ==> widest_prefix(start, end) <= q,
{
    assert(start & 0u128 == 0) by (bit_vector);
    lemma_widen(start, end, 128);
    let p = widest_prefix(start, end);
    assert forall|q: u8| block_fits(start, end, q) implies p <= q by {
        if q < p {
            lemma_fits_longer(start, end, q, (p - 1) as u8);
        }
    }
}

proof fn lemma_widen(start: u128, end: u128, prefix: u8)
    requires
        start <= end,
        block_fits(start, end, prefix),
    ensures
        widen(start, end, prefix) <= prefix,
        block_fits(start, end, widen(start, end, prefix)),
        widen(start, end, prefix) > 0 ==> !block_fits(
            start,
            end,
            (widen(start, end, prefix) - 1) as u8,
        ),
    decreases prefix,
{
    if prefix > 0 && block_fits(start, end, (prefix - 1) as u8) {
        lemma_widen(start, end, (prefix - 1) as u8);
    }
}

/// The widest prefix is the one that fits while the next shorter one does
/// not.
pub proof fn lemma_widest_prefix_is(start: u128, end: u128, prefix: u8)
    requires
        start <= end,
        block_fits(start, end, prefix),
        prefix > 0 ==> !block_fits(start, end, (prefix - 1) as u8),
    ensures
        widest_prefix(start, end) == prefix,
{
    lemma_widest_prefix(start, end);
    let widest = widest_prefix(start, end);
    if widest < prefix {
        lemma_fits_longer(start, end, widest, (prefix - 1) as u8);
    }
}

/// The range of a well-formed block is cut into that block alone.
pub proof fn lemma_decompose_block(block: Ipv6Network)
    requires
        block.well_formed(),
    ensures
        decompose(block.base, block.last()) == seq![block],
{
    lemma_covers_is_range(block, 0);
    if block.prefix > 0 {
        lemma_host_mask_grows((block.prefix - 1) as u8, block.prefix);
    }
    lemma_widest_prefix_is(block.base, block.last(), block.prefix);
}

/// The blocks that a range is cut into tile it.
pub proof fn lemma_decompose_tiles(start: u128, end: u128)
    requires
        start <= end,
    ensures
        is_tiling(decompose(start, end), start, end),
    decreases end - start,
{
    lemma_widest_prefix(start, end);
    let prefix = widest_prefix(start, end);
    let block = Ipv6Network { base: start, prefix };
    let step = host_mask(prefix);
    lemma_covers_is_range(block, start);
    if step < end - start {
        let next = (start + step + 1) as u128;
        lemma_decompose_tiles(next, end);
        let rest = decompose(next, end);
        let all = decompose(start, end);
        assert(all == seq![block] + rest);
        assert(all[0] == block);
        assert forall|i: int| 0 <= i < all.len() implies (#[trigger] all[i]).well_formed() by {
            if i > 0 {
                assert(all[i] == rest[i - 1]);
            }
        }
        assert forall|i: int, j: int| 0 <= i && j == i + 1 && j < all.len() implies (
        #[trigger] all[i]).last() + 1 == (#[trigger] all[j]).base by {
            assert(all[j] == rest[i]);
            if i > 0 {
                assert(all[i] == rest[i - 1]);
                assert(rest[i - 1].last() + 1 == rest[i].base);
            }
        }
        assert(all.last() == rest.last());
    }
}

/// In a tiling of a range every block lies within the range.
pub proof fn lemma_tiling_bounds(blocks: Seq<Ipv6Network>, start: u128, end: u128, i: int)
    requires
        is_tiling(blocks, start, end),
        0 <= i < blocks.len(),
    ensures
        start <= blocks[i].base <= blocks[i].last() <= end,
{
    lemma_tiling_lower(blocks, start, end, i);
    lemma_tiling_upper(blocks, start, end, i);
}

proof fn lemma_tiling_lower(blocks: Seq<Ipv6Network>, start: u128, end: u128, i: int)
    requires
        is_tiling(blocks, start, end),
        0 <= i < blocks.len(),
    ensures
        start <= blocks[i].base <= blocks[i].last(),
    decreases i,
{
    lemma_covers_is_range(blocks[i], start);
    if i > 0 {
        lemma_tiling_lower(blocks, start, end, i - 1);
        assert(blocks[i - 1].last() + 1 == blocks[i].base);
    }
}

/// In a tiling each block ends before every later one starts.
pub proof fn lemma_tiling_ordered(
    blocks: Seq<Ipv6Network>,
    start: u128,
    end: u128,
    i: int,
    j: int,
)
    requires
        is_tiling(blocks, start, end),
        0 <= i < j < blocks.len(),
    ensures
        blocks[i].last() < blocks[j].base,
    decreases j - i,
{
    assert(blocks[j - 1].last() + 1 == blocks[j].base);
    if i + 1 < j {
        lemma_tiling_ordered(blocks, start, end, i, j - 1);
        lemma_covers_is_range(blocks[j - 1], 0);
    }
}

proof fn lemma_tiling_upper(blocks: Seq<Ipv6Network>, start: u128, end: u128, i: int)
    requires
        is_tiling(blocks, start, end),
        0 <= i < blocks.len(),
    ensures
        blocks[i].last() <= end,
    decreases blocks.len() - i,
{
    if i < blocks.len() - 1 {
        lemma_tiling_upper(blocks, start, end, i + 1);
        lemma_covers_is_range(blocks[i + 1], start);
        assert(blocks[i].last() + 1 == blocks[i + 1].base);
    }
}

proof fn lemma_tiling_reaches(blocks: Seq<Ipv6Network>, start: u128, end: u128, a: u128, i: int)
    requires
        is_tiling(blocks, start, end),
        0 <= i < blocks.len(),
        blocks[i].base <= a <= end,
    ensures
        covered_by(blocks, a),
    decreases blocks.len() - i,
{
    lemma_covers_is_range(blocks[i], a);
    if a > blocks[i].last() {
        assert(blocks[i].last() + 1 == blocks[i + 1].base);
        lemma_tiling_reaches(blocks, start, end, a, i + 1);
    }
}

/// The blocks of a tiling hold the addresses of the range, and no others.
pub proof fn lemma_tiling_covers(blocks: Seq<Ipv6Network>, start: u128, end: u128)
    requires
        is_tiling(blocks, start, end),
    ensures
        forall|a: u128| covered_by(blocks, a) <==> start <= a <= end,
{
    assert forall|a: u128| covered_by(blocks, a) <==> start <= a <= end by {
        if covered_by(blocks, a) {
            let i = choose|i: int| 0 <= i < blocks.len() && (#[trigger] blocks[i]).covers(a);
            lemma_tiling_bounds(blocks, start, end, i);
            lemma_covers_is_range(blocks[i], a);
        }
        if start <= a <= end {
            lemma_tiling_reaches(blocks, start, end, a, 0);
        }
    }
}

/// The ranges of well-formed blocks hold the addresses of the blocks.
pub proof fn lemma_ranges_of_blocks(blocks: Seq<Ipv6Network>)
    requires
        all_well_formed(blocks),
    ensures
        all_valid(ranges_of(blocks)),
        forall|a: u128| covered(ranges_of(blocks), a) <==> covered_by(blocks, a),
{
    let ranges = ranges_of(blocks);
    assert forall|i: int| 0 <= i < ranges.len() implies (#[trigger] ranges[i]).0
        <= ranges[i].1 by {
        lemma_covers_is_range(blocks[i], 0);
    }
    assert forall|a: u128| covered(ranges, a) <==> covered_by(blocks, a) by {
        if covered(ranges, a) {
            let i = choose|i: int| 0 <= i < ranges.len() && in_range(#[trigger] ranges[i], a);
            lemma_covers_is_range(blocks[i], a);
            assert(blocks[i].covers(a));
        }
        if covered_by(blocks, a) {
            let i = choose|i: int| 0 <= i < blocks.len() && (#[trigger] blocks[i]).covers(a);
            lemma_covers_is_range(blocks[i], a);
            assert(in_range(ranges[i], a));
        }
    }
}

/// Ranges merged from the blocks that a range is cut into are that range
/// alone.
pub proof fn lemma_merged_decomposition(start: u128, end: u128, merged: Seq<(u128, u128)>)
    requires
        start <= end,
        is_merged(merged, ranges_of(decompose(start, end))),
    ensures
        merged == seq![(start, end)],
{
    let blocks = decompose(start, end);
    lemma_decompose_tiles(start, end);
    lemma_tiling_covers(blocks, start, end);
    lemma_ranges_of_blocks(blocks);
    assert forall|a: u128| covered(merged, a) <==> start <= a <= end by {
        assert(points(merged).contains(a) == covered(merged, a));
        assert(points(ranges_of(blocks)).contains(a) == covered(ranges_of(blocks), a));
        assert(covered(ranges_of(blocks), a) == covered_by(blocks, a));
        assert(covered_by(blocks, a) == (start <= a <= end));
    }
    lemma_merged_single(merged, start, end);
}

/// Cutting a range into blocks and merging the ranges of those blocks gives
/// the range back, and nothing else.
pub proof fn lemma_decompose_round_trip(start: u128, end: u128)
    requires
        start <= end,
    ensures
        maximal_ranges(ranges_of(decompose(start, end))) == seq![(start, end)],
{
    let blocks = decompose(start, end);
    lemma_decompose_tiles(start, end);
    lemma_ranges_of_blocks(blocks);
    lemma_maximal_ranges_exist(ranges_of(blocks));
    lemma_merged_decomposition(start, end, maximal_ranges(ranges_of(blocks)));
}

/// Some block of a tiling ends at or behind a given address of the range and
/// starts at or before it. The index of the first such block at or behind
/// index `from` is returned.
proof fn lemma_tiling_block_at(
    tiling: Seq<Ipv6Network>,
    start: u128,
    end: u128,
    a: u128,
    from: int,
) -> (at: int)
    requires
        is_tiling(tiling, start, end),
        0 <= from < tiling.len(),
        tiling[from].base <= a <= end,
    ensures
        from <= at < tiling.len(),
        tiling[at].base <= a <= tiling[at].last(),
    decreases tiling.len() - from,
{
    if a <= tiling[from].last() {
        from
    } else {
        lemma_tiling_upper(tiling, start, end, from);
        assert(tiling[from].last() + 1 == tiling[from + 1].base);
        lemma_tiling_block_at(tiling, start, end, a, from + 1)
    }
}

/// What is left of a tiling behind one of its blocks tiles the rest of the
/// range.
proof fn lemma_tiling_rest(tiling: Seq<Ipv6Network>, start: u128, end: u128, at: int)
    requires
        is_tiling(tiling, start, end),
        0 <= at < tiling.len() - 1,
    ensures
        tiling[at].last() < end,
        is_tiling(
            tiling.subrange(at + 1, tiling.len() as int),
            (tiling[at].last() + 1) as u128,
            end,
        ),
{
    let rest = tiling.subrange(at + 1, tiling.len() as int);
    lemma_tiling_upper(tiling, start, end, at + 1);
    lemma_covers_is_range(tiling[at + 1], 0);
    assert(tiling[at].last() + 1 == tiling[at + 1].base);
    assert forall|i: int| 0 <= i < rest.len() implies (#[trigger] rest[i]) == tiling[at + 1 + i] by {}
    assert forall|i: int, j: int| 0 <= i && j == i + 1 && j < rest.len() implies (
    #[trigger] rest[i]).last() + 1 == (#[trigger] rest[j]).base by {
        assert(tiling[at + 1 + i].last() + 1 == tiling[at + 1 + j].base);
    }
    assert(rest.last() == tiling.last());
}

/// No tiling of a range has fewer blocks than the range is cut into: taking
/// the widest block that fits each time gives the fewest blocks.
pub proof fn lemma_decompose_is_shortest(tiling: Seq<Ipv6Network>, start: u128, end: u128)
    requires
        is_tiling(tiling, start, end),
    ensures
        decompose(start, end).len() <= tiling.len(),
    decreases end - start,
{
    lemma_tiling_bounds(tiling, start, end, 0);
    lemma_widest_prefix(start, end);
    let prefix = widest_prefix(start, end);
    let widest = Ipv6Network { base: start, prefix };
    let first = tiling[0];
    lemma_covers_is_range(widest, start);
    lemma_covers_is_range(first, start);
    // the first block of the tiling fits, so it is no wider than the widest
    assert(block_fits(start, end, first.prefix));
    if host_mask(prefix) < end - start {
        // the block of the tiling that holds the last address of the widest
        // block ends there too: it starts within the widest block, and the
        // first block, the only one that starts where the widest one does,
        // is no wider
        let at = lemma_tiling_block_at(tiling, start, end, widest.last(), 0);
        let block = tiling[at];
        lemma_covers_is_range(block, block.base);
        lemma_covers_is_range(widest, block.base);
        lemma_tiling_lower(tiling, start, end, at);
        if block.prefix < prefix {
            lemma_nested_blocks(block, widest, block.base);
            lemma_covers_is_range(block, start);
            if at > 0 {
                lemma_tiling_ordered(tiling, start, end, 0, at);
            }
            assert(false);
        }
        lemma_covers_is_range(block, block.last());
        lemma_nested_blocks(widest, block, block.last());
        lemma_covers_is_range(widest, block.last());
        assert(block.last() == widest.last());
        lemma_tiling_rest(tiling, start, end, at);
        let rest = tiling.subrange(at + 1, tiling.len() as int);
        lemma_decompose_is_shortest(rest, (widest.last() + 1) as u128, end);
    }
}

/// The addresses of two lists of blocks, one behind the other, are those of
/// the one and those of the other.
pub proof fn lemma_covered_by_concat(front: Seq<Ipv6Network>, back: Seq<Ipv6Network>)
    ensures
        forall|a: u128| #[trigger]
            covered_by(front + back, a) <==> covered_by(front, a) || covered_by(back, a),
{
    let all = front + back;
    assert forall|a: u128| #[trigger]
        covered_by(all, a) <==> covered_by(front, a) || covered_by(back, a) by {
        if covered_by(all, a) {
            let i = choose|i: int| 0 <= i < all.len() && (#[trigger] all[i]).covers(a);
            if i < front.len() {
                assert(front[i].covers(a));
            } else {
                assert(back[i - front.len()].covers(a));
            }
        }
        if covered_by(front, a) {
            let i = choose|i: int| 0 <= i < front.len() && (#[trigger] front[i]).covers(a);
            assert(all[i].covers(a));
        }
        if covered_by(back, a) {
            let i = choose|i: int| 0 <= i < back.len() && (#[trigger] back[i]).covers(a);
            assert(all[i + front.len()].covers(a));
        }
    }
}

/// The blocks that valid, separated ranges are cut into are well formed, each
/// ends before the next starts, the last ends where the last range ends, and
/// together they hold the addresses of the ranges and no others.
pub proof fn lemma_decompose_each(ranges: Seq<(u128, u128)>)
    requires
        all_valid(ranges),
        separated(ranges),
    ensures
        all_well_formed(decompose_each(ranges)),
        ascending(decompose_each(ranges)),
        ranges.len() > 0 ==> decompose_each(ranges).len() > 0 && decompose_each(
            ranges,
        ).last().last() == ranges.last().1,
        forall|a: u128| covered_by(decompose_each(ranges), a) <==> covered(ranges, a),
    decreases ranges.len(),
{
    if ranges.len() > 0 {
        let before = ranges.drop_last();
        let (start, end) = ranges.last();
        let front = decompose_each(before);
        let back = decompose(start, end);
        let all = decompose_each(ranges);
        assert(all_valid(before) && separated(before)) by {
            assert forall|i: int| 0 <= i < before.len() implies (#[trigger] before[i])
                == ranges[i] by {}
        }
        assert(ranges[ranges.len() - 1].0 <= ranges[ranges.len() - 1].1);
        lemma_decompose_each(before);
        lemma_decompose_tiles(start, end);
        lemma_tiling_covers(back, start, end);
        lemma_covered_by_concat(front, back);
        lemma_covered_push(before, (start, end));
        assert(ranges == before.push((start, end)));
        assert forall|i: int| 0 <= i < all.len() implies (#[trigger] all[i]).well_formed() by {
            if i < front.len() {
                assert(all[i] == front[i]);
            } else {
                assert(all[i] == back[i - front.len()]);
            }
        }
        assert forall|i: int, j: int| 0 <= i < j < all.len() implies (#[trigger] all[i]).last() < (
        #[trigger] all[j]).base by {
            if j < front.len() {
                assert(all[i] == front[i] && all[j] == front[j]);
            } else if i < front.len() {
                assert(all[i] == front[i] && all[j] == back[j - front.len()]);
                lemma_tiling_bounds(back, start, end, j - front.len());
                lemma_covers_is_range(front.last(), 0);
                if i < front.len() - 1 {
                    assert(front[i].last() < front[front.len() - 1].base);
                }
                assert(before[before.len() - 1] == ranges[ranges.len() - 2]);
                assert(ranges[ranges.len() - 2].1 + 1 < ranges[ranges.len() - 1].0);
            } else {
                assert(all[i] == back[i - front.len()] && all[j] == back[j - front.len()]);
                lemma_tiling_ordered(back, start, end, i - front.len(), j - front.len());
            }
        }
        assert(all.last() == back.last());
        assert forall|a: u128| covered_by(all, a) <==> covered(ranges, a) by {
            assert(covered_by(all, a) <==> covered_by(front, a) || covered_by(back, a));
            assert(covered(ranges, a) <==> covered(before, a) || in_range((start, end), a));
        }
    }
}

/// Well-formed blocks of which each ends before the next starts share no
/// address, and stand in the order of their addresses.
pub proof fn lemma_ascending_disjoint(blocks: Seq<Ipv6Network>)
    requires
        all_well_formed(blocks),
        ascending(blocks),
    ensures
        pairwise_disjoint(blocks),
        in_order(NetworkOrder::ByAddress, blocks),
{
    assert forall|i: int, j: int, a: u128|
        #![trigger blocks[i].covers(a), blocks[j].covers(a)]
        0 <= i < j < blocks.len() implies !(blocks[i].covers(a) && blocks[j].covers(a)) by {
        assert(blocks[i].last() < blocks[j].base);
        lemma_covers_is_range(blocks[i], a);
        lemma_covers_is_range(blocks[j], a);
    }
    assert forall|i: int, j: int| 0 <= i <= j < blocks.len() implies sort_key(
        NetworkOrder::ByAddress,
        #[trigger] blocks[i],
    ) <= sort_key(NetworkOrder::ByAddress, #[trigger] blocks[j]) by {
        if i < j {
            assert(blocks[i].last() < blocks[j].base);
            lemma_covers_is_range(blocks[i], 0);
            assert(blocks[i].base + 1 <= blocks[j].base);
        }
    }
}

} // verus!
