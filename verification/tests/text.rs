use bogon::address::IpAddress;
use bogon::text::{read_address, read_ipv4, read_ipv6};
use ipnetwork::IpNetwork;

/// What the address types of the standard library make of a text without a
/// slash.
fn expected(text: &str) -> Option<IpAddress> {
    assert!(!text.contains('/'));
    match text.parse::<IpNetwork>() {
        Ok(IpNetwork::V4(network)) => Some(IpAddress::V4(network.ip().to_bits())),
        Ok(IpNetwork::V6(network)) => Some(IpAddress::V6(network.ip().to_bits())),
        Err(_) => None,
    }
}

fn agrees(text: &str) {
    assert_eq!(read_address(text.as_bytes()), expected(text), "for {:?}", text);
}

struct Dice(u64);

impl Dice {
    fn roll(&mut self, sides: usize) -> usize {
        self.0 = self.0.wrapping_mul(6364136223846793005).wrapping_add(1442695040888963407);
        ((self.0 >> 33) as usize) % sides
    }
}

#[test]
fn reads_ipv4_addresses() {
    assert_eq!(read_ipv4(b"127.0.0.1"), Some(0x7f00_0001));
    assert_eq!(read_ipv4(b"0.0.0.0"), Some(0));
    assert_eq!(read_ipv4(b"255.255.255.255"), Some(u32::MAX));
    assert_eq!(read_ipv4(b"8.8.8.8"), Some(0x0808_0808));
    assert_eq!(read_ipv4(b"192.168.10.200"), Some(0xc0a8_0ac8));
    assert_eq!(read_ipv4(b"1.2.3.4"), Some(0x0102_0304));
}

#[test]
fn refuses_what_is_no_ipv4_address() {
    for text in [
        "", ".", "...", "1.2.3", "1.2.3.4.5", "1.2.3.", ".1.2.3", "1..2.3", "256.0.0.0",
        "1.2.3.256", "01.2.3.4", "1.2.3.04", "00.0.0.0", "1.2.3.4 ", " 1.2.3.4", "1.2.3.a",
        "0x1.2.3.4", "1000.2.3.4", "1.2.3.0004", "+1.2.3.4", "1.2.3.-4", "1,2,3,4", "::1",
        "1.2.3.4:80", "\u{661}.2.3.4",
    ] {
        assert_eq!(read_ipv4(text.as_bytes()), None, "for {:?}", text);
    }
}

#[test]
fn reads_ipv6_addresses() {
    assert_eq!(read_ipv6(b"::"), Some(0));
    assert_eq!(read_ipv6(b"::1"), Some(1));
    assert_eq!(read_ipv6(b"1::"), Some(1 << 112));
    assert_eq!(read_ipv6(b"fe80::1"), Some(0xfe80_0000_0000_0000_0000_0000_0000_0001));
    assert_eq!(
        read_ipv6(b"2606:4700:4700:1111::2"),
        Some(0x2606_4700_4700_1111_0000_0000_0000_0002)
    );
    assert_eq!(
        read_ipv6(b"2001:db8:85a3:8d3:1319:8a2e:370:7348"),
        Some(0x2001_0db8_85a3_08d3_1319_8a2e_0370_7348)
    );
    assert_eq!(
        read_ipv6(b"2001:0DB8:0000:0000:0000:0000:0000:00aB"),
        Some(0x2001_0db8_0000_0000_0000_0000_0000_00ab)
    );
    assert_eq!(read_ipv6(b"::ffff:192.0.2.1"), Some(0xffff_c000_0201));
    assert_eq!(read_ipv6(b"::192.0.2.1"), Some(0xc000_0201));
    assert_eq!(
        read_ipv6(b"64:ff9b::203.0.113.9"),
        Some(0x0064_ff9b_0000_0000_0000_0000_cb00_7109)
    );
    assert_eq!(
        read_ipv6(b"1:2:3:4:5:6:7.8.9.10"),
        Some(0x0001_0002_0003_0004_0005_0006_0708_090a)
    );
    assert_eq!(
        read_ipv6(b"1:2:3:4:5:6:7::"),
        Some(0x0001_0002_0003_0004_0005_0006_0007_0000)
    );
    assert_eq!(
        read_ipv6(b"::2:3:4:5:6:7:8"),
        Some(0x0000_0002_0003_0004_0005_0006_0007_0008)
    );
    assert_eq!(
        read_ipv6(b"ffff:ffff:ffff:ffff:ffff:ffff:ffff:ffff"),
        Some(u128::MAX)
    );
    assert_eq!(
        read_ipv6(b"ffff:ffff:ffff:ffff:ffff:ffff:255.255.255.255"),
        Some(u128::MAX)
    );
}

#[test]
fn refuses_what_is_no_ipv6_address() {
    for text in [
        "", ":", ":::", "::::", "1:", ":1", "1::2::3", "::1::", "1:::2", "1:2:3:4:5:6:7",
        "1:2:3:4:5:6:7:8:9", "1:2:3:4:5:6:7:8::", "::1:2:3:4:5:6:7:8", "1:2:3:4::5:6:7:8",
        "12345::", "::12345", "g::", "::g", "1:2:3:4:5:6:7:", ":1:2:3:4:5:6:7",
        "1.2.3.4::", "1.2.3.4::1", "1:2.3.4.5::", "::1.2.3.4:5", "::1.2.3", "::1.2.3.4.5",
        "::256.1.1.1", "::01.1.1.1", "1:2:3:4:5:6:7:1.2.3.4", "1:2:3:4:5:1.2.3.4",
        "1:2:3:4:5:6::1.2.3.4", "fe80::1%eth0", "[::1]", " ::1", "::1 ", "::1\n", "1.2.3.4",
        "::ffff:1.2.3.4:5", "0x1::", "-1::", "1::+2", "::\u{ff11}",
    ] {
        assert_eq!(read_ipv6(text.as_bytes()), None, "for {:?}", text);
    }
}

#[test]
fn reads_either_family() {
    assert_eq!(read_address(b"127.0.0.1"), Some(IpAddress::V4(0x7f00_0001)));
    assert_eq!(read_address(b"::1"), Some(IpAddress::V6(1)));
    assert_eq!(read_address(b"::127.0.0.1"), Some(IpAddress::V6(0x7f00_0001)));
    assert_eq!(read_address(b"foo"), None);
    assert_eq!(read_address(b""), None);
    assert_eq!(read_address(b"1.2.3.4::"), None);
}

#[test]
fn agrees_with_the_standard_library_on_chosen_texts() {
    for text in [
        "", ".", ":", "::", ":::", "::::", "1", "a", "1.2.3.4", "1.2.3", "01.2.3.4", "1.2.3.04",
        "255.255.255.255", "256.255.255.255", "0.0.0.0", "00.0.0.0", "1.2.3.4.", ".1.2.3.4",
        "::1", "1::", "1::1", "1:1:1:1:1:1:1:1", "1:1:1:1:1:1:1::", "::1:1:1:1:1:1:1",
        "1:1:1:1:1:1:1:1::", "::1:1:1:1:1:1:1:1", "1:1:1::1:1:1:1", "1:1:1:1::1:1:1:1",
        "1:1:1:1:1:1:1.1.1.1", "1:1:1:1:1:1:1:1.1.1.1", "1:1:1:1:1::1.1.1.1",
        "1:1:1:1:1:1::1.1.1.1", "::1.1.1.1", "::1.1.1.1:1", "1.1.1.1::", "1.1.1.1:1::",
        "::ffff:0:1.1.1.1", "::ffff:1.1.1.01", "::ffff:1.1.1.256", "::ffff:1.1.1", "0::0",
        "0:0:0:0:0:0:0:0", "00000::", "0000::", "::0000", "::00000", "AbCd::", "abcg::",
        "::A", "::a", "::G", "::@", "::`", "::/", "::9", "::F", "::f", "1:2::3:4", "1::2:3::4",
        "1:::2", ":1::2", "1::2:", "::1:", ":1:", "1:2:3:4:5:6:7", "1:2:3:4:5:6:7:8:9",
        "fe80::1%1", "::1%", "0.0.0.0.0", "1. 2.3.4", "1.2.3.4\0", "\0", "::\0", "١.٢.٣.٤",
        "2001:db8::ff00:42:8329", "2001:DB8::FF00:42:8329", "::1.2.3.4.5", "::.1.2.3",
        "::1..2.3", "::1.2.3.", "1.2.3.4:1.2.3.4", "::1.2.3.4:1.2.3.4", "1:2:3:4:5:6:1.2.3.4:",
        "0:0:0:0:0:0:0.0.0.0", "0:0:0:0:0:0:0:0.0.0.0", "0:0:0:0:0:0.0.0.0", "::0.0.0.0",
        "::0.0.0", "1::2.3.4.5", "1:2::3.4.5.6", "1:2:3:4:5:6:7::0.0.0.0", "::123.123.123.123",
    ] {
        if !text.contains('/') {
            agrees(text);
        }
    }
}

#[test]
fn agrees_with_the_standard_library_on_every_short_text() {
    let letters = ['1', ':', '.', 'a', '0'];
    let mut texts: Vec<String> = vec![String::new()];
    for _ in 0..7 {
        let mut longer = Vec::with_capacity(texts.len() * letters.len());
        for text in &texts {
            for letter in letters {
                let mut next = text.clone();
                next.push(letter);
                longer.push(next);
            }
        }
        for text in &longer {
            agrees(text);
        }
        texts = longer;
    }
}

#[test]
fn agrees_with_the_standard_library_on_texts_made_of_fields() {
    let fields = [
        "", "0", "1", "9", "10", "255", "256", "01", "a", "F", "ffff", "0000", "00000", "fffff",
        "g", "1.2.3.4", "255.255.255.255", "1.2.3", "1.2.3.256", "01.2.3.4", "1.2.3.4.5",
        "0.0.0.0", "1.a.3.4",
    ];
    let mut dice = Dice(2024);
    for _ in 0..60_000 {
        let count = 1 + dice.roll(10);
        let mut text = String::new();
        for i in 0..count {
            if i > 0 {
                text.push(':');
            }
            // the gap shows more often than other fields
            if dice.roll(4) > 0 {
                text.push_str(fields[dice.roll(fields.len())]);
            }
        }
        agrees(&text);
    }
}

#[test]
fn agrees_with_the_standard_library_on_texts_near_addresses() {
    let seeds = [
        "1.2.3.4",
        "255.255.255.255",
        "::",
        "::1",
        "1::",
        "1:2:3:4:5:6:7:8",
        "1:2:3:4:5:6:7::",
        "::2:3:4:5:6:7:8",
        "1:2:3::6:7:8",
        "::ffff:1.2.3.4",
        "1:2:3:4:5:6:1.2.3.4",
        "1:2:3:4:5::1.2.3.4",
        "abcd:ef01:2345:6789:ABCD:EF01:2345:6789",
    ];
    let letters = [':', '.', '0', '1', '5', '9', 'a', 'F', 'g', ' ', '%'];
    let mut dice = Dice(7);
    for seed in seeds {
        agrees(seed);
        for _ in 0..4_000 {
            let mut text: Vec<char> = seed.chars().collect();
            for _ in 0..(1 + dice.roll(3)) {
                let at = dice.roll(text.len() + 1);
                match dice.roll(3) {
                    0 => text.insert(at, letters[dice.roll(letters.len())]),
                    1 => {
                        if at < text.len() {
                            text.remove(at);
                        }
                    }
                    _ => {
                        if at < text.len() {
                            text[at] = letters[dice.roll(letters.len())];
                        }
                    }
                }
            }
            let text: String = text.into_iter().collect();
            agrees(&text);
        }
    }
}
