//! Texts, addresses, checksums and ordered maps.

use hemlock::checksum::ip_checksum;
use hemlock::interfaces::port_number_of;
use hemlock::ip::{parse_ip, parse_v4, parse_v6, IpAddr, Ipv4, Ipv6};
use hemlock::mac::{mac_text, parse_mac};
use hemlock::ordmap::{OrdMap, TextSet};
use hemlock::text::{
    contains, cut, cut_last, decimal, head, hex, join, lines, lowercase, parse_decimal, parse_hex,
    split, strip_prefix, trim, words,
};

#[test]
fn numbers_read_and_write() {
    assert_eq!(decimal(0), "0");
    assert_eq!(decimal(u64::MAX), "18446744073709551615");
    assert_eq!(hex(0x1a, 4), "001a");
    assert_eq!(hex(0x12345, 2), "12345");
    assert_eq!(parse_decimal("65535", 0xffff), Some(65535));
    assert_eq!(parse_decimal("65536", 0xffff), None);
    assert_eq!(parse_decimal("", 10), None);
    assert_eq!(parse_decimal("1x", 100), None);
    assert_eq!(parse_hex("fF", 0xff), Some(255));
    assert_eq!(parse_hex("100", 0xff), None);
}

#[test]
fn texts_split_and_join() {
    assert_eq!(trim("\t a b \n"), "a b");
    assert_eq!(split("a,,b", ','), vec!["a", "", "b"]);
    assert_eq!(words("  a \t b\nc "), vec!["a", "b", "c"]);
    assert_eq!(cut("k=v=w", '='), Some(("k".into(), "v=w".into())));
    assert_eq!(cut("kv", '='), None);
    assert_eq!(cut_last("k=v=w", '='), Some(("k=v".into(), "w".into())));
    assert_eq!(head("10.0.0.1/24", '/'), "10.0.0.1");
    assert_eq!(strip_prefix("channel-7", "channel-").as_deref(), Some("7"));
    assert_eq!(strip_prefix("x", "channel-"), None);
    assert!(contains("a config.bcm b", "config.bcm"));
    assert_eq!(join(&vec!["a".into(), "b".into()], ", "), "a, b");
    assert_eq!(lines("a\r\nb\n\nc"), vec!["a", "b", "", "c"]);
    assert!(lines("").is_empty());
    assert_eq!(lowercase("AbC"), "abc");
}

#[test]
fn addresses_read_and_write() {
    assert_eq!(parse_v4("10.0.10.1"), Some(Ipv4::new(10, 0, 10, 1)));
    for bad in ["10.0.10", "10.0.10.256", "10.0.10.01", "10.0.10.1 ", ""] {
        assert_eq!(parse_v4(bad), None, "{bad:?}");
    }
    assert_eq!(Ipv4::new(192, 0, 2, 7).shown(), "192.0.2.7");
    assert_eq!(
        parse_v6("2001:db8::1"),
        Some(Ipv6 {
            hi: 0x2001_0db8_0000_0000,
            lo: 1
        })
    );
    assert_eq!(parse_v6("::"), Some(Ipv6 { hi: 0, lo: 0 }));
    assert_eq!(
        parse_v6("::ffff:10.0.0.1"),
        Some(Ipv6 {
            hi: 0,
            lo: 0xffff_0a00_0001
        })
    );
    for bad in ["1:2:3", "1::2::3", "12345::", "::g", ":1:2:3:4:5:6:7"] {
        assert_eq!(parse_v6(bad), None, "{bad:?}");
    }
    assert!(matches!(parse_ip("fe80::1"), Some(IpAddr::V6(_))));
    assert!(Ipv4::new(239, 1, 1, 1).is_multicast());
    assert!(Ipv4::new(169, 254, 0, 1).is_link_local());
    assert!(Ipv4::new(127, 0, 0, 1).is_loopback());
    assert!(parse_v6("fe80::1").unwrap().is_link_local());
    assert!(parse_v6("ff02::1").unwrap().is_multicast());
}

#[test]
fn macs_read_back() {
    let mac = [0x2c, 0xdd, 0xe9, 0x4a, 0x1b, 0x00];
    assert_eq!(mac_text(&mac), "2c:dd:e9:4a:1b:00");
    assert_eq!(parse_mac(&mac_text(&mac)), Some(mac));
    assert_eq!(parse_mac("2C:DD:E9:4A:1B:00"), Some(mac));
    assert_eq!(parse_mac("2c:dd:e9:4a:1b"), None);
    assert_eq!(parse_mac("not-a-mac"), None);
}

#[test]
fn checksums_close() {
    let mut header = vec![
        0x45, 0x00, 0x00, 0x3c, 0x1c, 0x46, 0x40, 0x00, 0x40, 0x06, 0, 0, 0xac, 0x10, 0x0a, 0x63,
        0xac, 0x10, 0x0a, 0x0c,
    ];
    let sum = ip_checksum(&header);
    assert_eq!(sum, 0xb1e6);
    header[10..12].copy_from_slice(&sum.to_be_bytes());
    assert_eq!(ip_checksum(&header), 0);
}

#[test]
fn ordered_maps_keep_their_order() {
    let mut map: OrdMap<String, u32> = OrdMap::new();
    assert_eq!(map.insert("b".into(), 1), None);
    assert_eq!(map.insert("a".into(), 2), None);
    assert_eq!(map.insert("b".into(), 3), Some(1));
    assert_eq!(map.entries, vec![("a".into(), 2), ("b".into(), 3)]);
    assert_eq!(map.remove(&"a".to_string()), Some(2));
    assert_eq!(map.remove(&"a".to_string()), None);
    assert_eq!(map.get(&"b".to_string()), Some(&3));
    map.clear();
    assert!(map.entries.is_empty());
    let set = TextSet::of_names(&vec!["Ethernet9".into(), "Ethernet10".into(), "Ethernet9".into()]);
    assert_eq!(set.names(), vec!["Ethernet10", "Ethernet9"]);
}

#[test]
fn port_numbers_come_out_of_names() {
    assert_eq!(port_number_of("Ethernet49"), 49);
    assert_eq!(port_number_of("Management"), 0);
}
