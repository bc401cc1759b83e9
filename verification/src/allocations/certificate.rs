//! The steps from the blocks of the registry to the table: the ranges of
//! the blocks, the maximal runs of their addresses, and what each run is cut
//! into.

use vstd::prelude::*;
use super::{high, low, net, registry_blocks, registry_networks};
use crate::cidr::{all_well_formed, ranges_of};
use crate::decompose::{decompose, decompose_each, lemma_widest_prefix_is};
use crate::interval::{covered, in_range, is_merged, points};

verus! {

/// The ranges of the blocks of the registry.
pub(super) open spec fn registry_ranges() -> Seq<(u128, u128)> {
    seq![
        (low(0x2001_0200), high(0x2001_03ff)),
        (low(0x2001_0400), high(0x2001_05ff)),
        (low(0x2001_0600), high(0x2001_07ff)),
        (low(0x2001_0800), high(0x2001_0bff)),
        (low(0x2001_0c00), high(0x2001_0dff)),
        (low(0x2001_0e00), high(0x2001_0fff)),
        (low(0x2001_1200), high(0x2001_13ff)),
        (low(0x2001_1400), high(0x2001_17ff)),
        (low(0x2001_1800), high(0x2001_19ff)),
        (low(0x2001_1a00), high(0x2001_1bff)),
        (low(0x2001_1c00), high(0x2001_1fff)),
        (low(0x2001_2000), high(0x2001_3fff)),
        (low(0x2001_4000), high(0x2001_41ff)),
        (low(0x2001_4200), high(0x2001_43ff)),
        (low(0x2001_4400), high(0x2001_45ff)),
        (low(0x2001_4600), high(0x2001_47ff)),
        (low(0x2001_4800), high(0x2001_49ff)),
        (low(0x2001_4a00), high(0x2001_4bff)),
        (low(0x2001_4c00), high(0x2001_4dff)),
        (low(0x2001_5000), high(0x2001_5fff)),
        (low(0x2001_8000), high(0x2001_9fff)),
        (low(0x2001_a000), high(0x2001_afff)),
        (low(0x2001_b000), high(0x2001_bfff)),
        (low(0x2003_0000), high(0x2003_3fff)),
        (low(0x2400_0000), high(0x240f_ffff)),
        (low(0x2600_0000), high(0x260f_ffff)),
        (low(0x2610_0000), high(0x2610_01ff)),
        (low(0x2620_0000), high(0x2620_01ff)),
        (low(0x2630_0000), high(0x263f_ffff)),
        (low(0x2800_0000), high(0x280f_ffff)),
        (low(0x2a00_0000), high(0x2a0f_ffff)),
        (low(0x2a10_0000), high(0x2a1f_ffff)),
        (low(0x2c00_0000), high(0x2c0f_ffff)),
    ]
}

/// The maximal runs of the addresses of the registry.
pub(super) open spec fn registry_runs() -> Seq<(u128, u128)> {
    seq![
        (low(0x2001_0200), high(0x2001_0fff)),
        (low(0x2001_1200), high(0x2001_4dff)),
        (low(0x2001_5000), high(0x2001_5fff)),
        (low(0x2001_8000), high(0x2001_bfff)),
        (low(0x2003_0000), high(0x2003_3fff)),
        (low(0x2400_0000), high(0x240f_ffff)),
        (low(0x2600_0000), high(0x2610_01ff)),
        (low(0x2620_0000), high(0x2620_01ff)),
        (low(0x2630_0000), high(0x263f_ffff)),
        (low(0x2800_0000), high(0x280f_ffff)),
        (low(0x2a00_0000), high(0x2a1f_ffff)),
        (low(0x2c00_0000), high(0x2c0f_ffff)),
    ]
}

/// The blocks of the registry are well formed, and their ranges are as
/// listed.
pub(super) proof fn lemma_registry_ranges()
    ensures
        all_well_formed(registry_blocks()),
        ranges_of(registry_blocks()) == registry_ranges(),
{
    assert(low(0x2001_0200) & (u128::MAX >> 23u128) == 0
        && low(0x2001_0200) | (u128::MAX >> 23u128) == high(0x2001_03ff)
        && low(0x2001_0400) & (u128::MAX >> 23u128) == 0
        && low(0x2001_0400) | (u128::MAX >> 23u128) == high(0x2001_05ff)
        && low(0x2001_0600) & (u128::MAX >> 23u128) == 0
        && low(0x2001_0600) | (u128::MAX >> 23u128) == high(0x2001_07ff)
        && low(0x2001_0800) & (u128::MAX >> 22u128) == 0
        && low(0x2001_0800) | (u128::MAX >> 22u128) == high(0x2001_0bff)
        && low(0x2001_0c00) & (u128::MAX >> 23u128) == 0
        && low(0x2001_0c00) | (u128::MAX >> 23u128) == high(0x2001_0dff)
        && low(0x2001_0e00) & (u128::MAX >> 23u128) == 0
        && low(0x2001_0e00) | (u128::MAX >> 23u128) == high(0x2001_0fff)
        && low(0x2001_1200) & (u128::MAX >> 23u128) == 0
        && low(0x2001_1200) | (u128::MAX >> 23u128) == high(0x2001_13ff)
        && low(0x2001_1400) & (u128::MAX >> 22u128) == 0
        && low(0x2001_1400) | (u128::MAX >> 22u128) == high(0x2001_17ff)
        && low(0x2001_1800) & (u128::MAX >> 23u128) == 0
        && low(0x2001_1800) | (u128::MAX >> 23u128) == high(0x2001_19ff)
        && low(0x2001_1a00) & (u128::MAX >> 23u128) == 0
        && low(0x2001_1a00) | (u128::MAX >> 23u128) == high(0x2001_1bff)
        && low(0x2001_1c00) & (u128::MAX >> 22u128) == 0
        && low(0x2001_1c00) | (u128::MAX >> 22u128) == high(0x2001_1fff)
        && low(0x2001_2000) & (u128::MAX >> 19u128) == 0
        && low(0x2001_2000) | (u128::MAX >> 19u128) == high(0x2001_3fff)
        && low(0x2001_4000) & (u128::MAX >> 23u128) == 0
        && low(0x2001_4000) | (u128::MAX >> 23u128) == high(0x2001_41ff)
        && low(0x2001_4200) & (u128::MAX >> 23u128) == 0
        && low(0x2001_4200) | (u128::MAX >> 23u128) == high(0x2001_43ff)
        && low(0x2001_4400) & (u128::MAX >> 23u128) == 0
        && low(0x2001_4400) | (u128::MAX >> 23u128) == high(0x2001_45ff)
        && low(0x2001_4600) & (u128::MAX >> 23u128) == 0
        && low(0x2001_4600) | (u128::MAX >> 23u128) == high(0x2001_47ff)
        && low(0x2001_4800) & (u128::MAX >> 23u128) == 0
        && low(0x2001_4800) | (u128::MAX >> 23u128) == high(0x2001_49ff)
        && low(0x2001_4a00) & (u128::MAX >> 23u128) == 0
        && low(0x2001_4a00) | (u128::MAX >> 23u128) == high(0x2001_4bff)
        && low(0x2001_4c00) & (u128::MAX >> 23u128) == 0
        && low(0x2001_4c00) | (u128::MAX >> 23u128) == high(0x2001_4dff)
        && low(0x2001_5000) & (u128::MAX >> 20u128) == 0
        && low(0x2001_5000) | (u128::MAX >> 20u128) == high(0x2001_5fff)
        && low(0x2001_8000) & (u128::MAX >> 19u128) == 0
        && low(0x2001_8000) | (u128::MAX >> 19u128) == high(0x2001_9fff)
        && low(0x2001_a000) & (u128::MAX >> 20u128) == 0
        && low(0x2001_a000) | (u128::MAX >> 20u128) == high(0x2001_afff)
        && low(0x2001_b000) & (u128::MAX >> 20u128) == 0
        && low(0x2001_b000) | (u128::MAX >> 20u128) == high(0x2001_bfff)
        && low(0x2003_0000) & (u128::MAX >> 18u128) == 0
        && low(0x2003_0000) | (u128::MAX >> 18u128) == high(0x2003_3fff)
        && low(0x2400_0000) & (u128::MAX >> 12u128) == 0
        && low(0x2400_0000) | (u128::MAX >> 12u128) == high(0x240f_ffff)
        && low(0x2600_0000) & (u128::MAX >> 12u128) == 0
        && low(0x2600_0000) | (u128::MAX >> 12u128) == high(0x260f_ffff)
        && low(0x2610_0000) & (u128::MAX >> 23u128) == 0
        && low(0x2610_0000) | (u128::MAX >> 23u128) == high(0x2610_01ff)
        && low(0x2620_0000) & (u128::MAX >> 23u128) == 0
        && low(0x2620_0000) | (u128::MAX >> 23u128) == high(0x2620_01ff)
        && low(0x2630_0000) & (u128::MAX >> 12u128) == 0
        && low(0x2630_0000) | (u128::MAX >> 12u128) == high(0x263f_ffff)
        && low(0x2800_0000) & (u128::MAX >> 12u128) == 0
        && low(0x2800_0000) | (u128::MAX >> 12u128) == high(0x280f_ffff)
        && low(0x2a00_0000) & (u128::MAX >> 12u128) == 0
        && low(0x2a00_0000) | (u128::MAX >> 12u128) == high(0x2a0f_ffff)
        && low(0x2a10_0000) & (u128::MAX >> 12u128) == 0
        && low(0x2a10_0000) | (u128::MAX >> 12u128) == high(0x2a1f_ffff)
        && low(0x2c00_0000) & (u128::MAX >> 12u128) == 0
        && low(0x2c00_0000) | (u128::MAX >> 12u128) == high(0x2c0f_ffff)) by (bit_vector);
    let blocks = registry_blocks();
    let ranges = registry_ranges();
    assert forall|i: int| 0 <= i < blocks.len() implies (#[trigger] blocks[i]).well_formed() && (
        blocks[i].base,
        blocks[i].last(),
    ) == ranges[i] by {}
    assert(ranges_of(blocks) =~= ranges);
}

/// The listed runs are the maximal runs of the listed ranges.
pub(super) proof fn lemma_registry_runs()
    ensures
        is_merged(registry_runs(), registry_ranges()),
{
    let ranges = registry_ranges();
    let runs = registry_runs();
    assert forall|a: u128| covered(runs, a) <==> covered(ranges, a) by {
        if covered(runs, a) {
            let k = choose|k: int| 0 <= k < runs.len() && in_range(#[trigger] runs[k], a);
            if k == 0 {
                if a <= high(0x2001_03ff) {
                    assert(in_range(ranges[0], a));
                } else if a <= high(0x2001_05ff) {
                    assert(in_range(ranges[1], a));
                } else if a <= high(0x2001_07ff) {
                    assert(in_range(ranges[2], a));
                } else if a <= high(0x2001_0bff) {
                    assert(in_range(ranges[3], a));
                } else if a <= high(0x2001_0dff) {
                    assert(in_range(ranges[4], a));
                } else {
                    assert(in_range(ranges[5], a));
                }
            } else if k == 1 {
                if a <= high(0x2001_13ff) {
                    assert(in_range(ranges[6], a));
                } else if a <= high(0x2001_17ff) {
                    assert(in_range(ranges[7], a));
                } else if a <= high(0x2001_19ff) {
                    assert(in_range(ranges[8], a));
                } else if a <= high(0x2001_1bff) {
                    assert(in_range(ranges[9], a));
                } else if a <= high(0x2001_1fff) {
                    assert(in_range(ranges[10], a));
                } else if a <= high(0x2001_3fff) {
                    assert(in_range(ranges[11], a));
                } else if a <= high(0x2001_41ff) {
                    assert(in_range(ranges[12], a));
                } else if a <= high(0x2001_43ff) {
                    assert(in_range(ranges[13], a));
                } else if a <= high(0x2001_45ff) {
                    assert(in_range(ranges[14], a));
                } else if a <= high(0x2001_47ff) {
                    assert(in_range(ranges[15], a));
                } else if a <= high(0x2001_49ff) {
                    assert(in_range(ranges[16], a));
                } else if a <= high(0x2001_4bff) {
                    assert(in_range(ranges[17], a));
                } else {
                    assert(in_range(ranges[18], a));
                }
            } else if k == 2 {
                assert(in_range(ranges[19], a));
            } else if k == 3 {
                if a <= high(0x2001_9fff) {
                    assert(in_range(ranges[20], a));
                } else if a <= high(0x2001_afff) {
                    assert(in_range(ranges[21], a));
                } else {
                    assert(in_range(ranges[22], a));
                }
            } else if k == 4 {
                assert(in_range(ranges[23], a));
            } else if k == 5 {
                assert(in_range(ranges[24], a));
            } else if k == 6 {
                if a <= high(0x260f_ffff) {
                    assert(in_range(ranges[25], a));
                } else {
                    assert(in_range(ranges[26], a));
                }
            } else if k == 7 {
                assert(in_range(ranges[27], a));
            } else if k == 8 {
                assert(in_range(ranges[28], a));
            } else if k == 9 {
                assert(in_range(ranges[29], a));
            } else if k == 10 {
                if a <= high(0x2a0f_ffff) {
                    assert(in_range(ranges[30], a));
                } else {
                    assert(in_range(ranges[31], a));
                }
            } else if k == 11 {
                assert(in_range(ranges[32], a));
            }
        }
        if covered(ranges, a) {
            let i = choose|i: int| 0 <= i < ranges.len() && in_range(#[trigger] ranges[i], a);
            if 0 <= i <= 5 {
                assert(in_range(runs[0], a));
            } else if 6 <= i <= 18 {
                assert(in_range(runs[1], a));
            } else if i == 19 {
                assert(in_range(runs[2], a));
            } else if 20 <= i <= 22 {
                assert(in_range(runs[3], a));
            } else if i == 23 {
                assert(in_range(runs[4], a));
            } else if i == 24 {
                assert(in_range(runs[5], a));
            } else if 25 <= i <= 26 {
                assert(in_range(runs[6], a));
            } else if i == 27 {
                assert(in_range(runs[7], a));
            } else if i == 28 {
                assert(in_range(runs[8], a));
            } else if i == 29 {
                assert(in_range(runs[9], a));
            } else if 30 <= i <= 31 {
                assert(in_range(runs[10], a));
            } else if i == 32 {
                assert(in_range(runs[11], a));
            }
        }
    }
    assert(points(runs) =~= points(ranges));
}

/// What each maximal run is cut into.
proof fn lemma_registry_cuts()
    ensures
        decompose(low(0x2001_0200), high(0x2001_0fff)) == seq![net(0x2001_0200, 23), net(0x2001_0400, 22), net(0x2001_0800, 21)],
        decompose(low(0x2001_1200), high(0x2001_4dff)) == seq![net(0x2001_1200, 23), net(0x2001_1400, 22), net(0x2001_1800, 21), net(0x2001_2000, 19), net(0x2001_4000, 21), net(0x2001_4800, 22), net(0x2001_4c00, 23)],
        decompose(low(0x2001_5000), high(0x2001_5fff)) == seq![net(0x2001_5000, 20)],
        decompose(low(0x2001_8000), high(0x2001_bfff)) == seq![net(0x2001_8000, 18)],
        decompose(low(0x2003_0000), high(0x2003_3fff)) == seq![net(0x2003_0000, 18)],
        decompose(low(0x2400_0000), high(0x240f_ffff)) == seq![net(0x2400_0000, 12)],
        decompose(low(0x2600_0000), high(0x2610_01ff)) == seq![net(0x2600_0000, 12), net(0x2610_0000, 23)],
        decompose(low(0x2620_0000), high(0x2620_01ff)) == seq![net(0x2620_0000, 23)],
        decompose(low(0x2630_0000), high(0x263f_ffff)) == seq![net(0x2630_0000, 12)],
        decompose(low(0x2800_0000), high(0x280f_ffff)) == seq![net(0x2800_0000, 12)],
        decompose(low(0x2a00_0000), high(0x2a1f_ffff)) == seq![net(0x2a00_0000, 11)],
        decompose(low(0x2c00_0000), high(0x2c0f_ffff)) == seq![net(0x2c00_0000, 12)],
{
    assert(low(0x2001_0200) & (u128::MAX >> 23u128) == 0
        && (u128::MAX >> 23u128) <= high(0x2001_0fff) - low(0x2001_0200)
        && low(0x2001_0200) & (u128::MAX >> 22u128) != 0
        && low(0x2001_0200) + (u128::MAX >> 23u128) + 1 == low(0x2001_0400)
        && low(0x2001_0400) & (u128::MAX >> 22u128) == 0
        && (u128::MAX >> 22u128) <= high(0x2001_0fff) - low(0x2001_0400)
        && low(0x2001_0400) & (u128::MAX >> 21u128) != 0
        && low(0x2001_0400) + (u128::MAX >> 22u128) + 1 == low(0x2001_0800)
        && low(0x2001_0800) & (u128::MAX >> 21u128) == 0
        && (u128::MAX >> 21u128) <= high(0x2001_0fff) - low(0x2001_0800)
        && low(0x2001_0800) & (u128::MAX >> 20u128) != 0
        && (u128::MAX >> 21u128) >= high(0x2001_0fff) - low(0x2001_0800)
        && low(0x2001_1200) & (u128::MAX >> 23u128) == 0
        && (u128::MAX >> 23u128) <= high(0x2001_4dff) - low(0x2001_1200)
        && low(0x2001_1200) & (u128::MAX >> 22u128) != 0
        && low(0x2001_1200) + (u128::MAX >> 23u128) + 1 == low(0x2001_1400)
        && low(0x2001_1400) & (u128::MAX >> 22u128) == 0
        && (u128::MAX >> 22u128) <= high(0x2001_4dff) - low(0x2001_1400)
        && low(0x2001_1400) & (u128::MAX >> 21u128) != 0
        && low(0x2001_1400) + (u128::MAX >> 22u128) + 1 == low(0x2001_1800)
        && low(0x2001_1800) & (u128::MAX >> 21u128) == 0
        && (u128::MAX >> 21u128) <= high(0x2001_4dff) - low(0x2001_1800)
        && low(0x2001_1800) & (u128::MAX >> 20u128) != 0
        && low(0x2001_1800) + (u128::MAX >> 21u128) + 1 == low(0x2001_2000)
        && low(0x2001_2000) & (u128::MAX >> 19u128) == 0
        && (u128::MAX >> 19u128) <= high(0x2001_4dff) - low(0x2001_2000)
        && low(0x2001_2000) & (u128::MAX >> 18u128) != 0
        && low(0x2001_2000) + (u128::MAX >> 19u128) + 1 == low(0x2001_4000)
        && low(0x2001_4000) & (u128::MAX >> 21u128) == 0
        && (u128::MAX >> 21u128) <= high(0x2001_4dff) - low(0x2001_4000)
        && (u128::MAX >> 20u128) > high(0x2001_4dff) - low(0x2001_4000)
        && low(0x2001_4000) + (u128::MAX >> 21u128) + 1 == low(0x2001_4800)
        && low(0x2001_4800) & (u128::MAX >> 22u128) == 0
        && (u128::MAX >> 22u128) <= high(0x2001_4dff) - low(0x2001_4800)
        && (u128::MAX >> 21u128) > high(0x2001_4dff) - low(0x2001_4800)
        && low(0x2001_4800) + (u128::MAX >> 22u128) + 1 == low(0x2001_4c00)
        && low(0x2001_4c00) & (u128::MAX >> 23u128) == 0
        && (u128::MAX >> 23u128) <= high(0x2001_4dff) - low(0x2001_4c00)
        && (u128::MAX >> 22u128) > high(0x2001_4dff) - low(0x2001_4c00)
        && (u128::MAX >> 23u128) >= high(0x2001_4dff) - low(0x2001_4c00)
        && low(0x2001_5000) & (u128::MAX >> 20u128) == 0
        && (u128::MAX >> 20u128) <= high(0x2001_5fff) - low(0x2001_5000)
        && low(0x2001_5000) & (u128::MAX >> 19u128) != 0
        && (u128::MAX >> 20u128) >= high(0x2001_5fff) - low(0x2001_5000)
        && low(0x2001_8000) & (u128::MAX >> 18u128) == 0
        && (u128::MAX >> 18u128) <= high(0x2001_bfff) - low(0x2001_8000)
        && (u128::MAX >> 17u128) > high(0x2001_bfff) - low(0x2001_8000)
        && (u128::MAX >> 18u128) >= high(0x2001_bfff) - low(0x2001_8000)
        && low(0x2003_0000) & (u128::MAX >> 18u128) == 0
        && (u128::MAX >> 18u128) <= high(0x2003_3fff) - low(0x2003_0000)
        && (u128::MAX >> 17u128) > high(0x2003_3fff) - low(0x2003_0000)
        && (u128::MAX >> 18u128) >= high(0x2003_3fff) - low(0x2003_0000)
        && low(0x2400_0000) & (u128::MAX >> 12u128) == 0
        && (u128::MAX >> 12u128) <= high(0x240f_ffff) - low(0x2400_0000)
        && (u128::MAX >> 11u128) > high(0x240f_ffff) - low(0x2400_0000)
        && (u128::MAX >> 12u128) >= high(0x240f_ffff) - low(0x2400_0000)
        && low(0x2600_0000) & (u128::MAX >> 12u128) == 0
        && (u128::MAX >> 12u128) <= high(0x2610_01ff) - low(0x2600_0000)
        && (u128::MAX >> 11u128) > high(0x2610_01ff) - low(0x2600_0000)
        && low(0x2600_0000) + (u128::MAX >> 12u128) + 1 == low(0x2610_0000)
        && low(0x2610_0000) & (u128::MAX >> 23u128) == 0
        && (u128::MAX >> 23u128) <= high(0x2610_01ff) - low(0x2610_0000)
        && (u128::MAX >> 22u128) > high(0x2610_01ff) - low(0x2610_0000)
        && (u128::MAX >> 23u128) >= high(0x2610_01ff) - low(0x2610_0000)
        && low(0x2620_0000) & (u128::MAX >> 23u128) == 0
        && (u128::MAX >> 23u128) <= high(0x2620_01ff) - low(0x2620_0000)
        && (u128::MAX >> 22u128) > high(0x2620_01ff) - low(0x2620_0000)
        && (u128::MAX >> 23u128) >= high(0x2620_01ff) - low(0x2620_0000)
        && low(0x2630_0000) & (u128::MAX >> 12u128) == 0
        && (u128::MAX >> 12u128) <= high(0x263f_ffff) - low(0x2630_0000)
        && low(0x2630_0000) & (u128::MAX >> 11u128) != 0
        && (u128::MAX >> 12u128) >= high(0x263f_ffff) - low(0x2630_0000)
        && low(0x2800_0000) & (u128::MAX >> 12u128) == 0
        && (u128::MAX >> 12u128) <= high(0x280f_ffff) - low(0x2800_0000)
        && (u128::MAX >> 11u128) > high(0x280f_ffff) - low(0x2800_0000)
        && (u128::MAX >> 12u128) >= high(0x280f_ffff) - low(0x2800_0000)
        && low(0x2a00_0000) & (u128::MAX >> 11u128) == 0
        && (u128::MAX >> 11u128) <= high(0x2a1f_ffff) - low(0x2a00_0000)
        && (u128::MAX >> 10u128) > high(0x2a1f_ffff) - low(0x2a00_0000)
        && (u128::MAX >> 11u128) >= high(0x2a1f_ffff) - low(0x2a00_0000)
        && low(0x2c00_0000) & (u128::MAX >> 12u128) == 0
        && (u128::MAX >> 12u128) <= high(0x2c0f_ffff) - low(0x2c00_0000)
        && (u128::MAX >> 11u128) > high(0x2c0f_ffff) - low(0x2c00_0000)
        && (u128::MAX >> 12u128) >= high(0x2c0f_ffff) - low(0x2c00_0000)) by (bit_vector);
    lemma_widest_prefix_is(low(0x2001_0800), high(0x2001_0fff), 21);
    assert(decompose(low(0x2001_0800), high(0x2001_0fff)) =~= seq![net(0x2001_0800, 21)]);
    lemma_widest_prefix_is(low(0x2001_0400), high(0x2001_0fff), 22);
    assert(decompose(low(0x2001_0400), high(0x2001_0fff)) =~= seq![net(0x2001_0400, 22), net(0x2001_0800, 21)]);
    lemma_widest_prefix_is(low(0x2001_0200), high(0x2001_0fff), 23);
    assert(decompose(low(0x2001_0200), high(0x2001_0fff)) =~= seq![net(0x2001_0200, 23), net(0x2001_0400, 22), net(0x2001_0800, 21)]);
    lemma_widest_prefix_is(low(0x2001_4c00), high(0x2001_4dff), 23);
    assert(decompose(low(0x2001_4c00), high(0x2001_4dff)) =~= seq![net(0x2001_4c00, 23)]);
    lemma_widest_prefix_is(low(0x2001_4800), high(0x2001_4dff), 22);
    assert(decompose(low(0x2001_4800), high(0x2001_4dff)) =~= seq![net(0x2001_4800, 22), net(0x2001_4c00, 23)]);
    lemma_widest_prefix_is(low(0x2001_4000), high(0x2001_4dff), 21);
    assert(decompose(low(0x2001_4000), high(0x2001_4dff)) =~= seq![net(0x2001_4000, 21), net(0x2001_4800, 22), net(0x2001_4c00, 23)]);
    lemma_widest_prefix_is(low(0x2001_2000), high(0x2001_4dff), 19);
    assert(decompose(low(0x2001_2000), high(0x2001_4dff)) =~= seq![net(0x2001_2000, 19), net(0x2001_4000, 21), net(0x2001_4800, 22), net(0x2001_4c00, 23)]);
    lemma_widest_prefix_is(low(0x2001_1800), high(0x2001_4dff), 21);
    assert(decompose(low(0x2001_1800), high(0x2001_4dff)) =~= seq![net(0x2001_1800, 21), net(0x2001_2000, 19), net(0x2001_4000, 21), net(0x2001_4800, 22), net(0x2001_4c00, 23)]);
    lemma_widest_prefix_is(low(0x2001_1400), high(0x2001_4dff), 22);
    assert(decompose(low(0x2001_1400), high(0x2001_4dff)) =~= seq![net(0x2001_1400, 22), net(0x2001_1800, 21), net(0x2001_2000, 19), net(0x2001_4000, 21), net(0x2001_4800, 22), net(0x2001_4c00, 23)]);
    lemma_widest_prefix_is(low(0x2001_1200), high(0x2001_4dff), 23);
    assert(decompose(low(0x2001_1200), high(0x2001_4dff)) =~= seq![net(0x2001_1200, 23), net(0x2001_1400, 22), net(0x2001_1800, 21), net(0x2001_2000, 19), net(0x2001_4000, 21), net(0x2001_4800, 22), net(0x2001_4c00, 23)]);
    lemma_widest_prefix_is(low(0x2001_5000), high(0x2001_5fff), 20);
    assert(decompose(low(0x2001_5000), high(0x2001_5fff)) =~= seq![net(0x2001_5000, 20)]);
    lemma_widest_prefix_is(low(0x2001_8000), high(0x2001_bfff), 18);
    assert(decompose(low(0x2001_8000), high(0x2001_bfff)) =~= seq![net(0x2001_8000, 18)]);
    lemma_widest_prefix_is(low(0x2003_0000), high(0x2003_3fff), 18);
    assert(decompose(low(0x2003_0000), high(0x2003_3fff)) =~= seq![net(0x2003_0000, 18)]);
    lemma_widest_prefix_is(low(0x2400_0000), high(0x240f_ffff), 12);
    assert(decompose(low(0x2400_0000), high(0x240f_ffff)) =~= seq![net(0x2400_0000, 12)]);
    lemma_widest_prefix_is(low(0x2610_0000), high(0x2610_01ff), 23);
    assert(decompose(low(0x2610_0000), high(0x2610_01ff)) =~= seq![net(0x2610_0000, 23)]);
    lemma_widest_prefix_is(low(0x2600_0000), high(0x2610_01ff), 12);
    assert(decompose(low(0x2600_0000), high(0x2610_01ff)) =~= seq![net(0x2600_0000, 12), net(0x2610_0000, 23)]);
    lemma_widest_prefix_is(low(0x2620_0000), high(0x2620_01ff), 23);
    assert(decompose(low(0x2620_0000), high(0x2620_01ff)) =~= seq![net(0x2620_0000, 23)]);
    lemma_widest_prefix_is(low(0x2630_0000), high(0x263f_ffff), 12);
    assert(decompose(low(0x2630_0000), high(0x263f_ffff)) =~= seq![net(0x2630_0000, 12)]);
    lemma_widest_prefix_is(low(0x2800_0000), high(0x280f_ffff), 12);
    assert(decompose(low(0x2800_0000), high(0x280f_ffff)) =~= seq![net(0x2800_0000, 12)]);
    lemma_widest_prefix_is(low(0x2a00_0000), high(0x2a1f_ffff), 11);
    assert(decompose(low(0x2a00_0000), high(0x2a1f_ffff)) =~= seq![net(0x2a00_0000, 11)]);
    lemma_widest_prefix_is(low(0x2c00_0000), high(0x2c0f_ffff), 12);
    assert(decompose(low(0x2c00_0000), high(0x2c0f_ffff)) =~= seq![net(0x2c00_0000, 12)]);
}

/// The merged blocks are what the maximal runs are cut into.
pub(super) proof fn lemma_registry_networks()
    ensures
        decompose_each(registry_runs()) == registry_networks(),
{
    lemma_registry_cuts();
    let runs = registry_runs();
    let networks = registry_networks();
    assert(decompose_each(runs.take(0)) =~= networks.take(0));
    assert(runs.take(1).drop_last() =~= runs.take(0));
    assert(runs.take(1).last() == (low(0x2001_0200), high(0x2001_0fff)));
    assert(networks.take(3) =~= networks.take(0) + seq![net(0x2001_0200, 23), net(0x2001_0400, 22), net(0x2001_0800, 21)]);
    assert(decompose_each(runs.take(1)) == networks.take(3));
    assert(runs.take(2).drop_last() =~= runs.take(1));
    assert(runs.take(2).last() == (low(0x2001_1200), high(0x2001_4dff)));
    assert(networks.take(10) =~= networks.take(3) + seq![net(0x2001_1200, 23), net(0x2001_1400, 22), net(0x2001_1800, 21), net(0x2001_2000, 19), net(0x2001_4000, 21), net(0x2001_4800, 22), net(0x2001_4c00, 23)]);
    assert(decompose_each(runs.take(2)) == networks.take(10));
    assert(runs.take(3).drop_last() =~= runs.take(2));
    assert(runs.take(3).last() == (low(0x2001_5000), high(0x2001_5fff)));
    assert(networks.take(11) =~= networks.take(10) + seq![net(0x2001_5000, 20)]);
    assert(decompose_each(runs.take(3)) == networks.take(11));
    assert(runs.take(4).drop_last() =~= runs.take(3));
    assert(runs.take(4).last() == (low(0x2001_8000), high(0x2001_bfff)));
    assert(networks.take(12) =~= networks.take(11) + seq![net(0x2001_8000, 18)]);
    assert(decompose_each(runs.take(4)) == networks.take(12));
    assert(runs.take(5).drop_last() =~= runs.take(4));
    assert(runs.take(5).last() == (low(0x2003_0000), high(0x2003_3fff)));
    assert(networks.take(13) =~= networks.take(12) + seq![net(0x2003_0000, 18)]);
    assert(decompose_each(runs.take(5)) == networks.take(13));
    assert(runs.take(6).drop_last() =~= runs.take(5));
    assert(runs.take(6).last() == (low(0x2400_0000), high(0x240f_ffff)));
    assert(networks.take(14) =~= networks.take(13) + seq![net(0x2400_0000, 12)]);
    assert(decompose_each(runs.take(6)) == networks.take(14));
    assert(runs.take(7).drop_last() =~= runs.take(6));
    assert(runs.take(7).last() == (low(0x2600_0000), high(0x2610_01ff)));
    assert(networks.take(16) =~= networks.take(14) + seq![net(0x2600_0000, 12), net(0x2610_0000, 23)]);
    assert(decompose_each(runs.take(7)) == networks.take(16));
    assert(runs.take(8).drop_last() =~= runs.take(7));
    assert(runs.take(8).last() == (low(0x2620_0000), high(0x2620_01ff)));
    assert(networks.take(17) =~= networks.take(16) + seq![net(0x2620_0000, 23)]);
    assert(decompose_each(runs.take(8)) == networks.take(17));
    assert(runs.take(9).drop_last() =~= runs.take(8));
    assert(runs.take(9).last() == (low(0x2630_0000), high(0x263f_ffff)));
    assert(networks.take(18) =~= networks.take(17) + seq![net(0x2630_0000, 12)]);
    assert(decompose_each(runs.take(9)) == networks.take(18));
    assert(runs.take(10).drop_last() =~= runs.take(9));
    assert(runs.take(10).last() == (low(0x2800_0000), high(0x280f_ffff)));
    assert(networks.take(19) =~= networks.take(18) + seq![net(0x2800_0000, 12)]);
    assert(decompose_each(runs.take(10)) == networks.take(19));
    assert(runs.take(11).drop_last() =~= runs.take(10));
    assert(runs.take(11).last() == (low(0x2a00_0000), high(0x2a1f_ffff)));
    assert(networks.take(20) =~= networks.take(19) + seq![net(0x2a00_0000, 11)]);
    assert(decompose_each(runs.take(11)) == networks.take(20));
    assert(runs.take(12).drop_last() =~= runs.take(11));
    assert(runs.take(12).last() == (low(0x2c00_0000), high(0x2c0f_ffff)));
    assert(networks.take(21) =~= networks.take(20) + seq![net(0x2c00_0000, 12)]);
    assert(decompose_each(runs.take(12)) == networks.take(21));
    assert(runs.take(12) =~= runs);
    assert(networks.take(21) =~= networks);
}

} // verus!
