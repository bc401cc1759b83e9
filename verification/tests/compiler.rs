use bogon::allocations::v6_allocations;
use bogon::cidr::Ipv6Network;
use bogon::compiler::{compile, four_byte_network, merge_ranges, CompileError};
use bogon::decompose::range_to_networks;
use bogon::interval::merge_intervals;
use bogon::network::FourByteNetwork;
use bogon::registry::{allocated_networks, counts_as_allocated, text_equals, Ipv6Allocation};
use bogon::retry::{retry_delay, MAX_RETRIES};
use bogon::sorting::{sort_networks, NetworkOrder};
use bogon::subnets::remove_subnets;

fn block(text: &str) -> Ipv6Network {
    let parsed: ipnetwork::Ipv6Network = text.parse().unwrap();
    Ipv6Network::new(parsed.network().to_bits(), parsed.prefix()).unwrap()
}

fn record(text: &str, designation: &str, status: &str) -> Ipv6Allocation {
    Ipv6Allocation {
        prefix: block(text),
        designation: designation.to_string(),
        status: status.to_string(),
    }
}

fn registry() -> Vec<Ipv6Allocation> {
    vec![
        record("2001:0000::/23", "IANA", "ALLOCATED"),
        record("2001:0200::/23", "APNIC", "ALLOCATED"),
        record("2001:0400::/23", "ARIN", "ALLOCATED"),
        record("2001:0600::/23", "RIPE NCC", "ALLOCATED"),
        record("2001:0800::/22", "RIPE NCC", "ALLOCATED"),
        record("2001:0c00::/23", "APNIC", "ALLOCATED"),
        record("2001:0e00::/23", "APNIC", "ALLOCATED"),
        record("2001:1200::/23", "LACNIC", "ALLOCATED"),
        record("2001:1400::/22", "RIPE NCC", "ALLOCATED"),
        record("2001:1800::/23", "ARIN", "ALLOCATED"),
        record("2001:1a00::/23", "RIPE NCC", "ALLOCATED"),
        record("2001:1c00::/22", "RIPE NCC", "ALLOCATED"),
        record("2001:2000::/19", "RIPE NCC", "ALLOCATED"),
        record("2001:4000::/23", "RIPE NCC", "ALLOCATED"),
        record("2001:4200::/23", "AFRINIC", "ALLOCATED"),
        record("2001:4400::/23", "APNIC", "ALLOCATED"),
        record("2001:4600::/23", "RIPE NCC", "ALLOCATED"),
        record("2001:4800::/23", "ARIN", "ALLOCATED"),
        record("2001:4a00::/23", "RIPE NCC", "ALLOCATED"),
        record("2001:4c00::/23", "RIPE NCC", "ALLOCATED"),
        record("2001:5000::/20", "RIPE NCC", "ALLOCATED"),
        record("2001:8000::/19", "APNIC", "ALLOCATED"),
        record("2001:a000::/20", "APNIC", "ALLOCATED"),
        record("2001:b000::/20", "APNIC", "ALLOCATED"),
        record("2002:0000::/16", "6to4", "ALLOCATED"),
        record("2003:0000::/18", "RIPE NCC", "ALLOCATED"),
        record("2400:0000::/12", "APNIC", "ALLOCATED"),
        record("2600:0000::/12", "ARIN", "ALLOCATED"),
        record("2610:0000::/23", "ARIN", "ALLOCATED"),
        record("2620:0000::/23", "ARIN", "ALLOCATED"),
        record("2630:0000::/12", "ARIN", "ALLOCATED"),
        record("2800:0000::/12", "LACNIC", "ALLOCATED"),
        record("2a00:0000::/12", "RIPE NCC", "ALLOCATED"),
        record("2a10:0000::/12", "RIPE NCC", "ALLOCATED"),
        record("2c00:0000::/12", "AFRINIC", "ALLOCATED"),
        record("2d00:0000::/8", "IANA", "RESERVED"),
        record("2e00:0000::/7", "IANA", "RESERVED"),
        record("3000:0000::/4", "IANA", "RESERVED"),
        record("3ffe::/16", "IANA", "RESERVED"),
        record("5f00::/16", "IANA", "ALLOCATED"),
    ]
}

fn covers(blocks: &[Ipv6Network], address: u128) -> bool {
    blocks.iter().any(|b| b.contains(address))
}

#[test]
fn compiled_registry_is_the_table_of_the_library() {
    let compiled = compile(&registry()).unwrap();
    assert_eq!(compiled, v6_allocations().to_vec());
}

#[test]
fn compile_without_an_allocation_fails() {
    assert_eq!(compile(&Vec::new()), Err(CompileError::EmptyAllocationSet));
    let none = vec![
        record("2001:0000::/23", "IANA", "ALLOCATED"),
        record("2d00:0000::/8", "IANA", "RESERVED"),
        record("2400:0000::/12", "APNIC", "RESERVED"),
    ];
    assert_eq!(compile(&none), Err(CompileError::EmptyAllocationSet));
}

#[test]
fn compile_with_a_long_prefix_fails() {
    let long = vec![
        record("2400:0000::/12", "APNIC", "ALLOCATED"),
        record("2620:0:2d0::/48", "ARIN", "ALLOCATED"),
    ];
    assert_eq!(
        compile(&long),
        Err(CompileError::NotProjectable(block("2620:0:2d0::/48")))
    );
}

#[test]
fn compile_names_the_first_block_that_is_too_long() {
    let long = vec![
        record("2a00::/33", "RIPE NCC", "ALLOCATED"),
        record("2620:0:2d0::/48", "ARIN", "ALLOCATED"),
        record("2400:0000::/12", "APNIC", "ALLOCATED"),
    ];
    assert_eq!(
        compile(&long),
        Err(CompileError::NotProjectable(block("2620:0:2d0::/48")))
    );
}

#[test]
fn compile_gives_projected_blocks_in_address_order() {
    let records = vec![
        record("2a00:0000::/12", "RIPE NCC", "ALLOCATED"),
        record("2001:0600::/23", "RIPE NCC", "ALLOCATED"),
        record("2001:0400::/23", "ARIN", "ALLOCATED"),
        record("2a10:0000::/12", "RIPE NCC", "ALLOCATED"),
        record("2001:0400::/23", "ARIN", "ALLOCATED"),
    ];
    assert_eq!(
        compile(&records),
        Ok(vec![
            FourByteNetwork::new(0x2001_0400, 22),
            FourByteNetwork::new(0x2a00_0000, 11),
        ])
    );
}

#[test]
fn only_allocations_to_the_five_registries_count() {
    for name in ["AFRINIC", "APNIC", "ARIN", "LACNIC", "RIPE NCC"] {
        assert!(counts_as_allocated(&record("2400::/12", name, "ALLOCATED")));
        assert!(!counts_as_allocated(&record("2400::/12", name, "RESERVED")));
        assert!(!counts_as_allocated(&record("2400::/12", name, "allocated")));
        assert!(!counts_as_allocated(&record("2400::/12", name, "")));
    }
    for name in ["IANA", "6to4", "RIPE", "RIPE NCC ", "arin", "", "ARIN,APNIC"] {
        assert!(!counts_as_allocated(&record("2400::/12", name, "ALLOCATED")));
    }
}

#[test]
fn allocated_networks_keeps_the_order_of_the_records() {
    let records = vec![
        record("2a00:0000::/12", "RIPE NCC", "ALLOCATED"),
        record("2001:0000::/23", "IANA", "ALLOCATED"),
        record("2001:0600::/23", "RIPE NCC", "RESERVED"),
        record("2001:0400::/23", "ARIN", "ALLOCATED"),
    ];
    assert_eq!(
        allocated_networks(&records),
        vec![block("2a00::/12"), block("2001:400::/23")]
    );
    assert_eq!(allocated_networks(&Vec::new()), Vec::new());
}

#[test]
fn text_equals_compares_character_by_character() {
    assert!(text_equals("", ""));
    assert!(text_equals("ALLOCATED", "ALLOCATED"));
    assert!(!text_equals("ALLOCATED", "ALLOCATE"));
    assert!(!text_equals("ALLOCATED", "ALLOCATEd"));
    assert!(!text_equals("RIPE NCC", "RIPE\u{a0}NCC"));
    assert!(text_equals("r\u{e9}serv\u{e9}", "r\u{e9}serv\u{e9}"));
}

#[test]
fn new_block_wants_a_canonical_base() {
    assert_eq!(
        Ipv6Network::new(0x2001_0db8 << 96, 32),
        Some(Ipv6Network { base: 0x2001_0db8 << 96, prefix: 32 })
    );
    assert_eq!(Ipv6Network::new((0x2001_0db8 << 96) | 1, 32), None);
    assert_eq!(Ipv6Network::new(0, 129), None);
    assert_eq!(Ipv6Network::new(0, 0), Some(Ipv6Network { base: 0, prefix: 0 }));
    assert_eq!(Ipv6Network::new(1, 0), None);
    assert_eq!(Ipv6Network::new(u128::MAX, 128), Some(Ipv6Network { base: u128::MAX, prefix: 128 }));
    assert_eq!(Ipv6Network::new(u128::MAX, 127), None);
}

#[test]
fn block_knows_its_ends_and_its_addresses() {
    let b = block("2001:db8::/32");
    assert_eq!(b.network(), 0x2001_0db8 << 96);
    assert_eq!(b.broadcast(), (0x2001_0db8 << 96) | ((1u128 << 96) - 1));
    assert_eq!(b.prefix(), 32);
    assert!(b.contains(b.network()));
    assert!(b.contains(b.broadcast()));
    assert!(b.contains(b.network() + 12345));
    assert!(!b.contains(b.network() - 1));
    assert!(!b.contains(b.broadcast() + 1));
    let all = Ipv6Network::new(0, 0).unwrap();
    assert_eq!(all.broadcast(), u128::MAX);
    assert!(all.contains(0) && all.contains(u128::MAX));
    let one = Ipv6Network::new(7, 128).unwrap();
    assert_eq!(one.broadcast(), 7);
    assert!(one.contains(7) && !one.contains(6) && !one.contains(8));
}

#[test]
fn merge_intervals_joins_what_overlaps_or_touches() {
    assert_eq!(merge_intervals(&vec![]), vec![]);
    assert_eq!(merge_intervals(&vec![(3, 9)]), vec![(3, 9)]);
    // touching
    assert_eq!(merge_intervals(&vec![(0, 4), (5, 9)]), vec![(0, 9)]);
    // one address between them
    assert_eq!(merge_intervals(&vec![(0, 4), (6, 9)]), vec![(0, 4), (6, 9)]);
    // overlapping, and one within another
    assert_eq!(merge_intervals(&vec![(0, 10), (2, 3), (8, 20), (30, 31)]), vec![(0, 20), (30, 31)]);
    // equal starts
    assert_eq!(merge_intervals(&vec![(5, 6), (5, 50), (5, 7)]), vec![(5, 50)]);
}

#[test]
fn merge_intervals_reaches_the_highest_address() {
    let top = u128::MAX;
    assert_eq!(merge_intervals(&vec![(0, top), (5, 9), (top, top)]), vec![(0, top)]);
    assert_eq!(merge_intervals(&vec![(top - 9, top - 1), (top, top)]), vec![(top - 9, top)]);
    assert_eq!(merge_intervals(&vec![(top - 9, top - 2), (top, top)]), vec![(top - 9, top - 2), (top, top)]);
}

#[test]
fn range_to_networks_takes_the_widest_block_each_time() {
    let n = |base: u128, prefix: u8| Ipv6Network { base, prefix };
    assert_eq!(range_to_networks((0, 4)), vec![n(0, 126), n(4, 128)]);
    assert_eq!(range_to_networks((1, 2)), vec![n(1, 128), n(2, 128)]);
    assert_eq!(range_to_networks((1, 8)), vec![n(1, 128), n(2, 127), n(4, 126), n(8, 128)]);
    assert_eq!(range_to_networks((0, 7)), vec![n(0, 125)]);
    assert_eq!(range_to_networks((5, 5)), vec![n(5, 128)]);
    assert_eq!(range_to_networks((8, 15)), vec![n(8, 125)]);
    assert_eq!(range_to_networks((6, 5)), vec![]);
}

#[test]
fn range_to_networks_of_the_whole_space_is_one_block() {
    let n = |base: u128, prefix: u8| Ipv6Network { base, prefix };
    assert_eq!(range_to_networks((0, u128::MAX)), vec![n(0, 0)]);
    assert_eq!(range_to_networks((1u128 << 127, u128::MAX)), vec![n(1u128 << 127, 1)]);
    assert_eq!(
        range_to_networks((u128::MAX - 2, u128::MAX)),
        vec![n(u128::MAX - 2, 128), n(u128::MAX - 1, 127)]
    );
    assert_eq!(range_to_networks((u128::MAX, u128::MAX)), vec![n(u128::MAX, 128)]);
}

#[test]
fn range_to_networks_of_a_block_is_that_block() {
    for text in ["2001:200::/23", "2a00::/11", "2001:db8::/32", "::/0", "::1/128", "2400::/12"] {
        let b = block(text);
        assert_eq!(range_to_networks((b.network(), b.broadcast())), vec![b]);
        // a block written by its range has as many leading zero bits in its
        // length as its prefix is long
        assert_eq!((b.broadcast() - b.network()).leading_zeros(), u32::from(b.prefix()));
    }
}

#[test]
fn cutting_a_range_and_merging_the_blocks_gives_the_range_back() {
    let ranges: [(u128, u128); 7] = [
        (0, 0),
        (1, 1000),
        (12345, 987_654_321),
        (0x2001_0200 << 96, (0x2001_1000 << 96) - 1),
        (u128::MAX - 77, u128::MAX),
        (0, u128::MAX),
        (3, u128::MAX - 3),
    ];
    for range in ranges {
        let blocks = range_to_networks(range);
        for pair in blocks.windows(2) {
            assert_eq!(pair[0].broadcast() + 1, pair[1].network());
        }
        let spans: Vec<(u128, u128)> =
            blocks.iter().map(|b| (b.network(), b.broadcast())).collect();
        assert_eq!(merge_intervals(&spans), vec![range]);
    }
}

#[test]
fn remove_subnets_drops_what_lies_within_a_kept_block() {
    let candidates = vec![
        block("2a00::/11"),
        block("2400::/12"),
        block("2a10::/12"),
        block("2400::/12"),
        block("2a00:1450::/32"),
        block("2600::/32"),
        block("2400:cb00::/32"),
    ];
    assert_eq!(
        remove_subnets(&candidates),
        vec![block("2a00::/11"), block("2400::/12"), block("2600::/32")]
    );
    assert_eq!(remove_subnets(&Vec::new()), Vec::new());
}

#[test]
fn remove_subnets_keeps_blocks_that_share_nothing() {
    let candidates = vec![block("2400::/12"), block("2600::/12"), block("2001:200::/23")];
    assert_eq!(remove_subnets(&candidates), candidates);
}

#[test]
fn removed_subnets_lie_within_a_kept_block_that_is_as_wide() {
    let candidates = sort_networks(
        &vec![
            block("2001:db8::/32"),
            block("2001:db8:1::/48"),
            block("2001::/16"),
            block("2a00::/12"),
            block("2a00:1450::/32"),
            block("2a00::/12"),
            block("2c00::/12"),
        ],
        NetworkOrder::ByPrefix,
    );
    let kept = remove_subnets(&candidates);
    assert_eq!(kept, vec![block("2a00::/12"), block("2c00::/12"), block("2001::/16")]);
    for candidate in &candidates {
        assert!(kept
            .iter()
            .any(|k| k.prefix() <= candidate.prefix() && k.contains(candidate.network())));
    }
}

#[test]
fn sort_networks_by_address_and_by_prefix() {
    let blocks = vec![
        block("2a00::/12"),
        block("2001:200::/23"),
        block("2a00::/11"),
        block("2400::/12"),
        block("2001:200::/24"),
    ];
    assert_eq!(
        sort_networks(&blocks, NetworkOrder::ByAddress),
        vec![
            block("2001:200::/23"),
            block("2001:200::/24"),
            block("2400::/12"),
            block("2a00::/11"),
            block("2a00::/12"),
        ]
    );
    assert_eq!(
        sort_networks(&blocks, NetworkOrder::ByPrefix),
        vec![
            block("2a00::/11"),
            block("2400::/12"),
            block("2a00::/12"),
            block("2001:200::/23"),
            block("2001:200::/24"),
        ]
    );
    assert_eq!(sort_networks(&Vec::new(), NetworkOrder::ByPrefix), Vec::new());
}

#[test]
fn merge_ranges_joins_neighbours_into_wider_blocks() {
    let merged = merge_ranges(&vec![
        block("2001:0600::/23"),
        block("2001:0200::/23"),
        block("2001:0400::/23"),
        block("2001:0800::/22"),
        block("2001:0c00::/23"),
        block("2001:0e00::/23"),
    ]);
    assert_eq!(
        merged,
        vec![block("2001:200::/23"), block("2001:400::/22"), block("2001:800::/21")]
    );
}

#[test]
fn merge_ranges_loses_and_gains_no_address() {
    let input = vec![
        block("2a00::/12"),
        block("2a10::/12"),
        block("2a00:1450::/32"),
        block("2001:db8::/32"),
        block("2001:db9::/32"),
        block("2001:dba::/31"),
        block("2001:db8::/32"),
        block("ffff:ffff:ffff:ffff:ffff:ffff:ffff:ffff/128"),
        block("ffff:ffff:ffff:ffff:ffff:ffff:ffff:fffe/128"),
        block("::/128"),
    ];
    let merged = merge_ranges(&input);
    assert_eq!(
        merged,
        vec![
            block("::/128"),
            block("2001:db8::/30"),
            block("2a00::/11"),
            block("ffff:ffff:ffff:ffff:ffff:ffff:ffff:fffe/127"),
        ]
    );
    // no two blocks share an address, and they come in rising order
    for pair in merged.windows(2) {
        assert!(pair[0].broadcast() < pair[1].network());
    }
    // at the ends of every block, and right outside of them, both lists
    // agree on what they hold
    for b in input.iter().chain(merged.iter()) {
        let probes = [
            b.network(),
            b.broadcast(),
            b.network().wrapping_sub(1),
            b.broadcast().wrapping_add(1),
        ];
        for probe in probes {
            assert_eq!(covers(&input, probe), covers(&merged, probe));
        }
    }
}

#[test]
fn merge_ranges_of_one_block_is_that_block() {
    assert_eq!(merge_ranges(&vec![block("2400::/12")]), vec![block("2400::/12")]);
    assert_eq!(merge_ranges(&vec![block("::/0")]), vec![block("::/0")]);
    assert_eq!(
        merge_ranges(&vec![block("::/0"), block("2400::/12")]),
        vec![block("::/0")]
    );
}

#[test]
fn four_byte_network_keeps_the_top_32_bits() {
    assert_eq!(
        four_byte_network(&block("2600::/12")),
        Some(FourByteNetwork::new(0x2600_0000, 12))
    );
    assert_eq!(
        four_byte_network(&block("2001:db8::/32")),
        Some(FourByteNetwork::new(0x2001_0db8, 32))
    );
    assert_eq!(four_byte_network(&block("::/0")), Some(FourByteNetwork::new(0, 0)));
    assert_eq!(four_byte_network(&block("2001:db8::/33")), None);
    assert_eq!(four_byte_network(&block("2001:db8::1/128")), None);
}

#[test]
fn projected_block_matches_the_addresses_of_the_block() {
    let b = block("2001:4800::/22");
    let projected = four_byte_network(&b).unwrap();
    let probes = [
        b.network(),
        b.broadcast(),
        b.network() - 1,
        b.broadcast() + 1,
        b.network() + (1u128 << 100),
        0,
        u128::MAX,
    ];
    for probe in probes {
        assert_eq!(projected.contains_v6(probe), b.contains(probe));
    }
}

#[test]
fn compiled_table_rises_and_shares_no_address() {
    let compiled = compile(&registry()).unwrap();
    assert_eq!(compiled.len(), 21);
    for pair in compiled.windows(2) {
        let size: u64 = 1u64 << (32 - u32::from(pair[0].prefix()));
        let last = u64::from(pair[0].network()) + size - 1;
        assert!(last < u64::from(pair[1].network()));
    }
}

#[test]
fn range_to_networks_gives_the_fewest_blocks() {
    // the nine addresses from 3 to 11 need four blocks: 3, 4..7, 8..11;
    // three blocks cannot do, since 3 stands alone and 4..11 is no block
    let n = |base: u128, prefix: u8| Ipv6Network { base, prefix };
    assert_eq!(range_to_networks((3, 11)), vec![n(3, 128), n(4, 126), n(8, 126)]);
    // a tiling with narrower blocks is longer
    let narrow = vec![n(3, 128), n(4, 127), n(6, 127), n(8, 126)];
    assert!(range_to_networks((3, 11)).len() < narrow.len());
}

#[test]
fn retries_wait_twice_as_long_each_time() {
    assert_eq!(MAX_RETRIES, 3);
    assert_eq!(retry_delay(0), Some(2));
    assert_eq!(retry_delay(1), Some(4));
    assert_eq!(retry_delay(2), Some(8));
    assert_eq!(retry_delay(3), None);
    assert_eq!(retry_delay(4), None);
    assert_eq!(retry_delay(u32::MAX), None);
}
