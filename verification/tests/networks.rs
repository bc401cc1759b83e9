use bogon::network::FourByteNetwork;
use bogon::v4_bogon_networks;
use ipnetwork::Ipv4Network;

#[test]
fn check_v4_networks() {
    let bogus = &[
        "0.0.0.0/8",
        "10.0.0.0/8",
        "100.64.0.0/10",
        "127.0.0.0/8",
        "169.254.0.0/16",
        "172.16.0.0/12",
        "192.0.0.0/24",
        "192.0.2.0/24",
        "192.168.0.0/16",
        "198.18.0.0/15",
        "198.51.100.0/24",
        "203.0.113.0/24",
        "224.0.0.0/4",
        "240.0.0.0/4",
        "255.255.255.255/32",
    ]
    .iter()
    .map(|&s| s.parse().unwrap())
    .map(|n: Ipv4Network| FourByteNetwork::new(n.network().to_bits(), n.prefix()))
    .collect::<Vec<_>>();

    // Compare to the table of the library.
    assert_eq!(bogus.len(), v4_bogon_networks().len());
    for (a, b) in bogus.iter().zip(v4_bogon_networks()) {
        assert_eq!(a, &b);
    }

    // The prefix length is less than or equal to 32.
    for network in v4_bogon_networks() {
        assert!(network.prefix() <= 32);
    }
}

#[test]
fn prefix_is_the_length_the_network_was_made_with() {
    for prefix in 0..=32u8 {
        assert_eq!(FourByteNetwork::new(0, prefix).prefix(), prefix);
    }
    assert_eq!(FourByteNetwork::new(0x0a00_0000, 8).prefix(), 8);
    assert_eq!(FourByteNetwork::new(0xc612_0000, 15).prefix(), 15);
    assert_eq!(FourByteNetwork::new(0xffff_ffff, 32).prefix(), 32);
}

#[test]
fn v4_table_lists_the_prefix_of_each_network() {
    let expected: [u8; 15] = [8, 8, 10, 8, 16, 12, 24, 24, 16, 15, 24, 24, 4, 4, 32];
    let table = v4_bogon_networks();
    for (network, prefix) in table.iter().zip(expected) {
        assert_eq!(network.prefix(), prefix);
    }
}

#[test]
fn contains_v4_matches_the_prefix_only() {
    let private = FourByteNetwork::new(0x0a00_0000, 8);
    assert!(private.contains_v4(0x0a00_0000));
    assert!(private.contains_v4(0x0a01_0203));
    assert!(private.contains_v4(0x0aff_ffff));
    assert!(!private.contains_v4(0x09ff_ffff));
    assert!(!private.contains_v4(0x0b00_0000));
}

#[test]
fn contains_v4_with_prefix_zero_holds_everything() {
    let all = FourByteNetwork::new(0, 0);
    assert!(all.contains_v4(0));
    assert!(all.contains_v4(0x8000_0000));
    assert!(all.contains_v4(u32::MAX));
}

#[test]
fn contains_v4_with_prefix_32_holds_one_address() {
    let one = FourByteNetwork::new(0xffff_ffff, 32);
    assert!(one.contains_v4(0xffff_ffff));
    assert!(!one.contains_v4(0xffff_fffe));
}

#[test]
fn contains_v6_looks_at_the_top_32_bits() {
    let arin = FourByteNetwork::new(0x2600_0000, 12);
    assert!(arin.contains_v6(0x2606_4700_4700_1111_0000_0000_0000_0002));
    assert!(arin.contains_v6(0x260f_ffff_ffff_ffff_ffff_ffff_ffff_ffff));
    assert!(!arin.contains_v6(0x2610_0000_0000_0000_0000_0000_0000_0000));
    assert!(!arin.contains_v6(0x0000_0000_2606_4700_0000_0000_0000_0000));
}

#[test]
fn network_is_the_base_the_network_was_made_with() {
    assert_eq!(FourByteNetwork::new(0x0a00_0000, 8).network(), 0x0a00_0000);
    assert_eq!(FourByteNetwork::new(0xc633_6400, 24).network(), 0xc633_6400);
    assert_eq!(FourByteNetwork::new(0, 0).network(), 0);
    assert_eq!(FourByteNetwork::new(0xffff_ffff, 32).network(), 0xffff_ffff);
}
