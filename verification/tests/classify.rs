use bogon::address::{AddrParseError, IpAddress};
use bogon::ext::BogonExt;
use bogon::{
    classify_parsed, is_bogon, is_bogon_str, is_bogon_v4, is_bogon_v6, v4_bogon_networks,
};

fn v4(a: u8, b: u8, c: u8, d: u8) -> u32 {
    u32::from_be_bytes([a, b, c, d])
}

fn v6(segments: [u16; 8]) -> u128 {
    let mut bits: u128 = 0;
    for segment in segments {
        bits = (bits << 16) | u128::from(segment);
    }
    bits
}

#[test]
fn loopback_v4_is_bogon() {
    assert!(is_bogon_v4(v4(127, 0, 0, 1)));
}

#[test]
fn public_resolver_v4_is_not_bogon() {
    assert!(!is_bogon_v4(v4(8, 8, 8, 8)));
}

#[test]
fn loopback_v6_is_bogon() {
    assert!(is_bogon_v6(v6([0, 0, 0, 0, 0, 0, 0, 1])));
}

#[test]
fn allocated_v6_is_not_bogon() {
    assert!(!is_bogon_v6(v6([0x2606, 0x4700, 0x4700, 0x1111, 0, 0, 0, 2])));
}

#[test]
fn link_local_v6_is_no_global_unicast_address() {
    assert!(is_bogon_v6(v6([0xfe80, 0, 0, 0, 0, 0, 0, 1])));
}

#[test]
fn text_that_is_no_address_is_an_error() {
    assert_eq!(is_bogon_str("foo"), Err(AddrParseError {}));
    assert!(is_bogon_str("").is_err());
    assert!(is_bogon_str("256.0.0.1").is_err());
    assert!(is_bogon_str("1.2.3").is_err());
    assert!(is_bogon_str("2001:db8::/32").is_err());
    assert!(is_bogon_str(" 8.8.8.8").is_err());
    assert!(is_bogon_str("8.8.8.8\n").is_err());
    assert!(is_bogon_str("::1%lo").is_err());
    assert!(is_bogon_str("08.8.8.8").is_err());
}

#[test]
fn text_is_read_and_then_classified() {
    assert_eq!(is_bogon_str("127.0.0.1"), Ok(true));
    assert_eq!(is_bogon_str("8.8.8.8"), Ok(false));
    assert_eq!(is_bogon_str("::1"), Ok(true));
    assert_eq!(is_bogon_str("2606:4700:4700:1111::2"), Ok(false));
    assert_eq!(is_bogon_str("fe80::1"), Ok(true));
    assert_eq!(is_bogon_str("10.1.2.3"), Ok(true));
    assert_eq!(is_bogon_str("1.1.1.1"), Ok(false));
}

#[test]
fn text_gives_what_the_address_gives() {
    assert_eq!(is_bogon_str("192.168.1.1"), Ok(is_bogon_v4(v4(192, 168, 1, 1))));
    assert_eq!(is_bogon_str("9.9.9.9"), Ok(is_bogon_v4(v4(9, 9, 9, 9))));
    assert_eq!(
        is_bogon_str("2a00:1450:4001:81b::200e"),
        Ok(is_bogon_v6(v6([0x2a00, 0x1450, 0x4001, 0x081b, 0, 0, 0, 0x200e])))
    );
    assert_eq!(is_bogon_str("2a00:1450:4001:81b::200e"), Ok(false));
}

#[test]
fn classify_parsed_hands_on_the_failure() {
    assert_eq!(classify_parsed(None), Err(AddrParseError {}));
    assert_eq!(classify_parsed(Some(IpAddress::V4(v4(127, 0, 0, 1)))), Ok(true));
    assert_eq!(classify_parsed(Some(IpAddress::V4(v4(8, 8, 8, 8)))), Ok(false));
    assert_eq!(classify_parsed(Some(IpAddress::V6(1))), Ok(true));
}

#[test]
fn either_family_goes_to_its_table() {
    assert!(is_bogon(IpAddress::V4(v4(127, 0, 0, 1))));
    assert!(!is_bogon(IpAddress::V4(v4(8, 8, 8, 8))));
    assert!(is_bogon(IpAddress::V6(v6([0, 0, 0, 0, 0, 0, 0, 1]))));
    assert!(!is_bogon(IpAddress::V6(v6([0x2606, 0x4700, 0x4700, 0x1111, 0, 0, 0, 2]))));
}

#[test]
fn extension_trait_gives_the_same_answers() {
    assert!(IpAddress::V4(v4(127, 0, 0, 1)).is_bogon());
    assert!(IpAddress::V6(v6([0, 0, 0, 0, 0, 0, 0, 1])).is_bogon());
    assert!(!v4(8, 8, 8, 8).is_bogon());
    assert!(!v6([0x2606, 0x4700, 0x4700, 0x1111, 0, 0, 0, 2]).is_bogon());
    assert!(v4(10, 0, 0, 1).is_bogon());
    assert!(v6([0xfe80, 0, 0, 0, 0, 0, 0, 1]).is_bogon());
}

#[test]
fn every_end_of_a_special_use_network_is_bogon() {
    let prefixes: [u8; 15] = [8, 8, 10, 8, 16, 12, 24, 24, 16, 15, 24, 24, 4, 4, 32];
    let bases: [u32; 15] = [
        v4(0, 0, 0, 0),
        v4(10, 0, 0, 0),
        v4(100, 64, 0, 0),
        v4(127, 0, 0, 0),
        v4(169, 254, 0, 0),
        v4(172, 16, 0, 0),
        v4(192, 0, 0, 0),
        v4(192, 0, 2, 0),
        v4(192, 168, 0, 0),
        v4(198, 18, 0, 0),
        v4(198, 51, 100, 0),
        v4(203, 0, 113, 0),
        v4(224, 0, 0, 0),
        v4(240, 0, 0, 0),
        v4(255, 255, 255, 255),
    ];
    assert_eq!(v4_bogon_networks().len(), 15);
    for (base, prefix) in bases.iter().zip(prefixes) {
        let size: u64 = 1u64 << (32 - u32::from(prefix));
        let last = (u64::from(*base) + size - 1) as u32;
        assert!(is_bogon_v4(*base));
        assert!(is_bogon_v4(last));
        assert!(is_bogon_v4(*base + ((last - *base) / 2)));
    }
}

#[test]
fn neighbours_of_special_use_networks() {
    // right below and right above 10.0.0.0/8
    assert!(!is_bogon_v4(v4(9, 255, 255, 255)));
    assert!(!is_bogon_v4(v4(11, 0, 0, 0)));
    // right above 0.0.0.0/8
    assert!(!is_bogon_v4(v4(1, 0, 0, 0)));
    // around 100.64.0.0/10
    assert!(!is_bogon_v4(v4(100, 63, 255, 255)));
    assert!(!is_bogon_v4(v4(100, 128, 0, 0)));
    // around 127.0.0.0/8
    assert!(!is_bogon_v4(v4(126, 255, 255, 255)));
    assert!(!is_bogon_v4(v4(128, 0, 0, 0)));
    // around 169.254.0.0/16
    assert!(!is_bogon_v4(v4(169, 253, 255, 255)));
    assert!(!is_bogon_v4(v4(169, 255, 0, 0)));
    // around 172.16.0.0/12
    assert!(!is_bogon_v4(v4(172, 15, 255, 255)));
    assert!(!is_bogon_v4(v4(172, 32, 0, 0)));
    // between 192.0.0.0/24 and 192.0.2.0/24
    assert!(!is_bogon_v4(v4(191, 255, 255, 255)));
    assert!(!is_bogon_v4(v4(192, 0, 1, 0)));
    assert!(!is_bogon_v4(v4(192, 0, 1, 255)));
    assert!(!is_bogon_v4(v4(192, 0, 3, 0)));
    // around 192.168.0.0/16
    assert!(!is_bogon_v4(v4(192, 167, 255, 255)));
    assert!(!is_bogon_v4(v4(192, 169, 0, 0)));
    // around 198.18.0.0/15
    assert!(!is_bogon_v4(v4(198, 17, 255, 255)));
    assert!(!is_bogon_v4(v4(198, 20, 0, 0)));
    // around 198.51.100.0/24
    assert!(!is_bogon_v4(v4(198, 51, 99, 255)));
    assert!(!is_bogon_v4(v4(198, 51, 101, 0)));
    // around 203.0.113.0/24
    assert!(!is_bogon_v4(v4(203, 0, 112, 255)));
    assert!(!is_bogon_v4(v4(203, 0, 114, 0)));
    // right below 224.0.0.0/4
    assert!(!is_bogon_v4(v4(223, 255, 255, 255)));
    // right above 224.0.0.0/4 lies the reserved block, and right below the
    // reserved block lies multicast
    assert!(is_bogon_v4(v4(240, 0, 0, 0)));
    assert!(is_bogon_v4(v4(239, 255, 255, 255)));
    // right below 255.255.255.255/32 lies the reserved block
    assert!(is_bogon_v4(v4(255, 255, 255, 254)));
}

#[test]
fn the_same_address_always_gives_the_same_answer() {
    for ip in [v4(127, 0, 0, 1), v4(8, 8, 8, 8), v4(192, 0, 2, 200), v4(203, 0, 114, 1)] {
        let first = is_bogon_v4(ip);
        for _ in 0..8 {
            assert_eq!(is_bogon_v4(ip), first);
        }
    }
    for ip in [1u128, v6([0x2606, 0x4700, 0x4700, 0x1111, 0, 0, 0, 2]), u128::MAX] {
        let first = is_bogon_v6(ip);
        for _ in 0..8 {
            assert_eq!(is_bogon_v6(ip), first);
        }
    }
}

#[test]
fn global_unicast_outside_of_every_allocation_is_bogon() {
    // 2001::/23 is held by IANA, 2002::/16 is 6to4, 3000::/4 is reserved
    assert!(is_bogon_v6(v6([0x2001, 0, 0, 0, 0, 0, 0, 1])));
    assert!(is_bogon_v6(v6([0x2001, 0x01ff, 0xffff, 0, 0, 0, 0, 0])));
    assert!(is_bogon_v6(v6([0x2002, 0x0808, 0x0808, 0, 0, 0, 0, 1])));
    assert!(is_bogon_v6(v6([0x3000, 0, 0, 0, 0, 0, 0, 1])));
    assert!(is_bogon_v6(v6([0x3fff, 0xffff, 0, 0, 0, 0, 0, 1])));
    // the ends of the allocated blocks around them
    assert!(!is_bogon_v6(v6([0x2001, 0x0200, 0, 0, 0, 0, 0, 0])));
    assert!(!is_bogon_v6(v6([0x2001, 0x0fff, 0xffff, 0xffff, 0xffff, 0xffff, 0xffff, 0xffff])));
    assert!(is_bogon_v6(v6([0x2001, 0x1000, 0, 0, 0, 0, 0, 0])));
    assert!(!is_bogon_v6(v6([0x2a1f, 0xffff, 0xffff, 0xffff, 0xffff, 0xffff, 0xffff, 0xffff])));
    assert!(is_bogon_v6(v6([0x2a20, 0, 0, 0, 0, 0, 0, 0])));
}

#[test]
fn addresses_outside_of_global_unicast_are_bogon() {
    assert!(is_bogon_v6(0));
    assert!(is_bogon_v6(u128::MAX));
    assert!(is_bogon_v6(v6([0xff02, 0, 0, 0, 0, 0, 0, 1])));
    assert!(is_bogon_v6(v6([0xfc00, 0, 0, 0, 0, 0, 0, 1])));
    assert!(is_bogon_v6(v6([0x1fff, 0xffff, 0xffff, 0xffff, 0xffff, 0xffff, 0xffff, 0xffff])));
    assert!(is_bogon_v6(v6([0x4000, 0, 0, 0, 0, 0, 0, 0])));
    assert!(is_bogon_v6(v6([0, 0, 0, 0, 0, 0xffff, 0x7f00, 1])));
}
