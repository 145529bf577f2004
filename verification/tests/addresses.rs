//! Text forms of IP addresses, and which addresses may stand in a list.

use mikrotik_api::ip::{format_ipv4, format_ipv6, parse_ipv4, parse_ipv6};
use mikrotik_api::plugin::is_valid_ip;

fn chars(text: &str) -> Vec<char> {
    text.chars().collect()
}

fn v4(text: &str) -> Option<[u8; 4]> {
    parse_ipv4(&chars(text))
}

fn v6(text: &str) -> Option<Vec<u16>> {
    parse_ipv6(&chars(text))
}

#[test]
fn ipv4_text_is_read() {
    assert_eq!(v4("192.168.1.96"), Some([192, 168, 1, 96]));
    assert_eq!(v4("0.0.0.0"), Some([0, 0, 0, 0]));
    assert_eq!(v4("255.255.255.255"), Some([255, 255, 255, 255]));
}

#[test]
fn malformed_ipv4_text_is_refused() {
    for text in [
        "", "1", "1.2.3", "1.2.3.4.5", "256.1.1.1", "1.2.3.256", "01.2.3.4", "1.2.3.04", "1..2.3",
        ".1.2.3", "1.2.3.", " 1.2.3.4", "1.2.3.4 ", "+1.2.3.4", "1.2.3.-4", "a.b.c.d", "1.2.3.1000",
    ] {
        assert_eq!(v4(text), None, "{}", text);
    }
}

#[test]
fn ipv4_text_is_written() {
    assert_eq!(format_ipv4([8, 8, 4, 4]), "8.8.4.4");
    assert_eq!(format_ipv4([0, 10, 99, 100]), "0.10.99.100");
}

#[test]
fn ipv4_text_round_trip() {
    for a in [0u8, 1, 9, 10, 99, 100, 199, 255] {
        for b in [0u8, 7, 42, 254] {
            let octets: [u8; 4] = [a, b, b, a];
            assert_eq!(v4(&format_ipv4(octets)), Some(octets));
        }
    }
}

#[test]
fn ipv6_text_is_read() {
    assert_eq!(v6("::"), Some(vec![0; 8]));
    assert_eq!(v6("::1"), Some(vec![0, 0, 0, 0, 0, 0, 0, 1]));
    assert_eq!(v6("1::"), Some(vec![1, 0, 0, 0, 0, 0, 0, 0]));
    assert_eq!(
        v6("2001:DB8:0:1:2:3:4:abcd"),
        Some(vec![0x2001, 0xdb8, 0, 1, 2, 3, 4, 0xabcd])
    );
    assert_eq!(v6("2001:db8::ff"), Some(vec![0x2001, 0xdb8, 0, 0, 0, 0, 0, 0xff]));
    assert_eq!(v6("::ffff:1.2.3.4"), Some(vec![0, 0, 0, 0, 0, 0xffff, 0x102, 0x304]));
    assert_eq!(v6("1:2:3:4:5:6:1.2.3.4"), Some(vec![1, 2, 3, 4, 5, 6, 0x102, 0x304]));
    assert_eq!(v6("1:2:3:4:5:6:7::"), Some(vec![1, 2, 3, 4, 5, 6, 7, 0]));
}

#[test]
fn malformed_ipv6_text_is_refused() {
    for text in [
        "", ":", ":::", "1", "1:2:3:4:5:6:7", "1:2:3:4:5:6:7:8:9", "1:2:3:4:5:6:7:8::", "12345::",
        "g::", "::1::", "1:2:3:4:5:6:7:1.2.3.4", "1.2.3.4", "::1.2.3", "::1.2.3.4:1", "[::1]",
        "::1%1", ":1:2:3:4:5:6:7:8", "1:2:3:4:5:6:7:8:", "::256.1.1.1",
    ] {
        assert_eq!(v6(text), None, "{}", text);
    }
}

#[test]
fn ipv6_text_is_written() {
    assert_eq!(format_ipv6(&[0; 8]), "::");
    assert_eq!(format_ipv6(&[0, 0, 0, 0, 0, 0, 0, 1]), "::1");
    assert_eq!(format_ipv6(&[0xfe80, 0, 0, 0, 0, 0, 0, 1]), "fe80::1");
    assert_eq!(format_ipv6(&[0x2001, 0xdb8, 0, 0, 1, 0, 0, 1]), "2001:db8::1:0:0:1");
    assert_eq!(format_ipv6(&[1, 0, 0, 1, 0, 0, 0, 1]), "1:0:0:1::1");
    assert_eq!(format_ipv6(&[1, 0, 2, 0, 3, 0, 4, 0]), "1:0:2:0:3:0:4:0");
    assert_eq!(format_ipv6(&[1, 2, 3, 4, 5, 6, 7, 0xabcd]), "1:2:3:4:5:6:7:abcd");
    assert_eq!(format_ipv6(&[1, 2, 3, 4, 5, 6, 0, 0]), "1:2:3:4:5:6::");
    assert_eq!(format_ipv6(&[0, 0, 0, 0, 0, 0xffff, 0x102, 0x304]), "::ffff:1.2.3.4");
}

#[test]
fn ipv6_text_round_trip() {
    let mut seed: u64 = 1;
    for _ in 0..2000 {
        let mut w: Vec<u16> = Vec::new();
        for _ in 0..8 {
            seed = seed.wrapping_mul(6364136223846793005).wrapping_add(1442695040888963407);
            let n = (seed >> 40) as u16;
            w.push(if n % 3 == 0 { 0 } else { n });
        }
        assert_eq!(v6(&format_ipv6(&w)), Some(w));
    }
}

#[test]
fn usable_addresses_are_valid() {
    for ip in [
        "1.1.1.1", "8.8.8.8", "10.0.0.1", "192.168.1.1", "192.0.3.1", "198.17.0.1", "198.20.0.1",
        "198.51.99.1", "203.0.112.1", "169.253.1.1", "99.1.1.1", "101.1.1.1", "223.255.255.255",
        "2001:db8::1", "::2", "::ffff:127.0.0.1", "fec0::1", "fe7f::1", "fd00::1",
    ] {
        assert!(is_valid_ip(ip), "{}", ip);
    }
}

#[test]
fn unusable_addresses_are_not_valid() {
    for ip in [
        "0.0.0.0", "0.1.2.3", "127.0.0.1", "127.255.0.1", "100.64.0.1", "100.0.0.1", "169.254.1.1",
        "192.0.2.7", "198.18.0.1", "198.19.255.1", "198.51.100.9", "203.0.113.5", "224.0.0.1",
        "239.1.1.1", "240.0.0.1", "255.255.255.255", "::", "::1", "ff02::1", "ffff::", "fe80::1",
        "febf::1", "", "example.com", "1.2.3", "1.2.3.4:80", "fe80::1%1",
    ] {
        assert!(!is_valid_ip(ip), "{}", ip);
    }
}

#[test]
fn many_ipv6_texts_are_read() {
    let cases: Vec<(&str, [u16; 8])> = vec![
        ("5::", [5, 0, 0, 0, 0, 0, 0, 0]),
        ("1::1", [1, 0, 0, 0, 0, 0, 0, 1]),
        ("::0:1:0a", [0, 0, 0, 0, 0, 0, 1, 0xa]),
        ("0::00:0:1:FFFF:FFFF", [0, 0, 0, 0, 0, 1, 0xffff, 0xffff]),
        ("::50:F", [0, 0, 0, 0, 0, 0, 0x50, 0xf]),
        ("ff:1:0:ff:0::ff", [0xff, 1, 0, 0xff, 0, 0, 0, 0xff]),
        ("::f", [0, 0, 0, 0, 0, 0, 0, 0xf]),
        ("f::0", [0xf, 0, 0, 0, 0, 0, 0, 0]),
        ("0a::0:0:ff:FFFF", [0xa, 0, 0, 0, 0, 0, 0xff, 0xffff]),
        ("9f::", [0x9f, 0, 0, 0, 0, 0, 0, 0]),
        ("::", [0, 0, 0, 0, 0, 0, 0, 0]),
        ("00::0a:1", [0, 0, 0, 0, 0, 0, 0xa, 1]),
        ("ff:00:0a::0:0:1", [0xff, 0, 0xa, 0, 0, 0, 0, 1]),
        ("0a:FFFF::00", [0xa, 0xffff, 0, 0, 0, 0, 0, 0]),
        ("1:a0::f", [1, 0xa0, 0, 0, 0, 0, 0, 0xf]),
        ("0:0::0a:1.2.3.4", [0, 0, 0, 0, 0, 0xa, 0x102, 0x304]),
        ("0::ff", [0, 0, 0, 0, 0, 0, 0, 0xff]),
        ("2::0f52", [2, 0, 0, 0, 0, 0, 0, 0xf52]),
        ("2::F", [2, 0, 0, 0, 0, 0, 0, 0xf]),
        ("0::1:ff:0a:ff", [0, 0, 0, 0, 1, 0xff, 0xa, 0xff]),
        ("5::Ff", [5, 0, 0, 0, 0, 0, 0, 0xff]),
        ("0a::1.2.3.4", [0xa, 0, 0, 0, 0, 0, 0x102, 0x304]),
        ("00:0a:FFFF:ff:0a:0:0a:1", [0, 0xa, 0xffff, 0xff, 0xa, 0, 0xa, 1]),
        ("5::59", [5, 0, 0, 0, 0, 0, 0, 0x59]),
        ("::0a:ff:0", [0, 0, 0, 0, 0, 0xa, 0xff, 0]),
        ("0a:0::0:0:0:FFFF:0a", [0xa, 0, 0, 0, 0, 0, 0xffff, 0xa]),
        ("ff:ff:0a::0:0", [0xff, 0xff, 0xa, 0, 0, 0, 0, 0]),
        ("1:0::ff", [1, 0, 0, 0, 0, 0, 0, 0xff]),
        ("0:0a:0a::1", [0, 0xa, 0xa, 0, 0, 0, 0, 1]),
        ("00::0:1", [0, 0, 0, 0, 0, 0, 0, 1]),
        ("0:1:1:0:00:0a:0:1", [0, 1, 1, 0, 0, 0xa, 0, 1]),
        ("0:0:0::0:1", [0, 0, 0, 0, 0, 0, 0, 1]),
        ("00::ff:ff:0:00", [0, 0, 0, 0, 0xff, 0xff, 0, 0]),
        ("::0:0a", [0, 0, 0, 0, 0, 0, 0, 0xa]),
        ("00:FFFF::0:00", [0, 0xffff, 0, 0, 0, 0, 0, 0]),
        ("00::0", [0, 0, 0, 0, 0, 0, 0, 0]),
        ("1:0a::0a:0a", [1, 0xa, 0, 0, 0, 0, 0xa, 0xa]),
        ("FFFF:ff:0:FFFF::0:0", [0xffff, 0xff, 0, 0xffff, 0, 0, 0, 0]),
        ("0::0:ff", [0, 0, 0, 0, 0, 0, 0, 0xff]),
        ("0:00:00:0a:0a::ff", [0, 0, 0, 0xa, 0xa, 0, 0, 0xff]),
        ("f::19:9", [0xf, 0, 0, 0, 0, 0, 0x19, 9]),
        ("::f:500", [0, 0, 0, 0, 0, 0, 0xf, 0x500]),
        ("1:00::0", [1, 0, 0, 0, 0, 0, 0, 0]),
        ("10Fa::90", [0x10fa, 0, 0, 0, 0, 0, 0, 0x90]),
        ("1::ff", [1, 0, 0, 0, 0, 0, 0, 0xff]),
    ];
    for (text, w) in cases {
        assert_eq!(v6(text), Some(w.to_vec()), "{}", text);
    }
}

#[test]
fn many_malformed_ipv6_texts_are_refused() {
    for text in [
        "g55af:",
        "a:::",
        "12345:0:00",
        "1:12345:1:00",
        "1.2.3.4:1:1:0:0:ff:ff:1:1",
        "0:ff:1",
        "20:1",
        "FFFF:00",
        ":0::0a:00:FFFF:0a:FFFF:1.2.3.4",
        "0:0a:12345:0",
        "12F:9:5",
        "00:ff:1.2.3.4",
        "0:FFFF:1.2.3.4:00:",
        "0:2:.1",
        ":105f:",
        "FFFF:1:00:1:FFFF",
        "2:.5F109a",
        "::21::2",
        ":1:0:1.2.3.4:1.2.3.4:0a:1.2.3.4",
        "12345:1:00:12345:0:1:1.2.3.4",
        ":90",
        "f1:ggg15F",
        ":9fg01a090",
        "1.2.3.4:0a",
        ":f:.1905:",
        ":FgFfa2",
        "FFFF:0:ff:1::1.2.3.4::1",
        "0:1.2.3.4",
        ":::",
        "1.2.3.4:ff",
        "912aF:F",
        "0:0a:12345:FFFF:12345",
        "1:fF0:0ff",
        "FFFF:0a:1:12345:12345::0:0a:1.2.3.4",
        "12345::1.2.3.4:ff:1::00:0a:0",
        "902:1",
        "90:9:",
        "1.2.3.4:ff:FFFF:0:1:12345:0:1.2.3.4:0",
        "9g:.",
        "FFFF:FFFF",
        "F05f:9",
        "1:0:0:FFFF:0:1.2.3.4:00:0:ff",
        "::1.2.3.4:12345:1.2.3.4:12345",
        "09g:",
        "F0ag90:",
    ] {
        assert_eq!(v6(text), None, "{}", text);
    }
}

#[test]
fn many_ipv6_texts_are_written() {
    let cases: Vec<([u16; 8], &str)> = vec![
        ([1, 0xa0, 0, 1, 0, 0xa0, 0xffff, 1], "1:a0:0:1:0:a0:ffff:1"),
        ([0, 0x932a, 0, 0, 1, 1, 0xa0, 0], "0:932a::1:1:a0:0"),
        ([0, 0xa0, 0, 0xa0, 0, 0xffff, 0xffff, 0x592c], "0:a0:0:a0:0:ffff:ffff:592c"),
        ([0xa0, 0x461f, 0, 1, 0x76ba, 0xa0, 0, 0], "a0:461f:0:1:76ba:a0::"),
        ([0, 0xa0, 0xa0, 0xffff, 0xd520, 1, 0, 0xa0], "0:a0:a0:ffff:d520:1:0:a0"),
        ([0x43ff, 0, 0, 0, 0xffff, 0, 0, 0], "43ff::ffff:0:0:0"),
        ([0xa0, 0, 1, 0, 0, 0x422a, 0, 0], "a0:0:1::422a:0:0"),
        ([0, 0xa0, 0xa0, 0xffff, 0, 1, 0, 0], "0:a0:a0:ffff:0:1::"),
        ([0xa0, 1, 0x7b78, 0, 0, 0xa0, 0, 0], "a0:1:7b78::a0:0:0"),
        ([0, 0x14f7, 0x6447, 0xa0, 0, 0, 0, 0xa0], "0:14f7:6447:a0::a0"),
        ([0xd56f, 1, 0xa0, 0, 0, 0, 0x8df2, 1], "d56f:1:a0::8df2:1"),
        ([1, 0, 0, 0, 0xffff, 1, 0, 0], "1::ffff:1:0:0"),
        ([0, 0xffff, 1, 0xffff, 0xffff, 0, 0, 0], "0:ffff:1:ffff:ffff::"),
        ([0, 1, 1, 1, 0, 0xa318, 0x22e9, 0], "0:1:1:1:0:a318:22e9:0"),
        ([0, 0, 0, 0, 0, 0, 0, 1], "::1"),
        ([0, 1, 0, 0xffff, 0xffff, 1, 0, 0x6ef8], "0:1:0:ffff:ffff:1:0:6ef8"),
        ([1, 0, 0, 0, 0, 0x1b81, 0, 0], "1::1b81:0:0"),
        ([0, 0xa0, 0, 0, 0xffff, 0xa0, 1, 0x387f], "0:a0::ffff:a0:1:387f"),
        ([0xffff, 0xa0, 0, 0xffff, 0xa0, 0, 0, 0], "ffff:a0:0:ffff:a0::"),
        ([0xe49e, 0, 0, 0, 0, 1, 1, 0], "e49e::1:1:0"),
        ([0xffff, 0xa0, 0xb3c8, 0, 0, 0, 0xa0, 0], "ffff:a0:b3c8::a0:0"),
        ([0xffff, 0xffff, 0xa0, 1, 0x1b3c, 1, 0, 0], "ffff:ffff:a0:1:1b3c:1::"),
        ([0xa8a6, 0, 0, 1, 0, 0xffff, 1, 1], "a8a6::1:0:ffff:1:1"),
        ([0, 0, 0, 0xffff, 0, 0, 0xffff, 0], "::ffff:0:0:ffff:0"),
        ([0, 0, 0, 0, 0, 0xa0, 0xffff, 0], "::a0:ffff:0"),
        ([0, 0xa0, 0xffff, 0, 0, 0xa0, 0xccf7, 0xffff], "0:a0:ffff::a0:ccf7:ffff"),
        ([0, 1, 0, 0xffff, 1, 0xa0, 0xa0, 1], "0:1:0:ffff:1:a0:a0:1"),
        ([1, 0x7f59, 0, 0, 0xffff, 0xffff, 0, 0], "1:7f59::ffff:ffff:0:0"),
        ([0xd4a0, 0, 0xffff, 1, 0, 0, 0, 0xa0], "d4a0:0:ffff:1::a0"),
        ([0xbbf0, 1, 0, 0xa0, 0, 0, 0xffff, 0], "bbf0:1:0:a0::ffff:0"),
        ([0, 0xbd94, 0, 0xa0, 0xffff, 0, 0xa0, 0xffff], "0:bd94:0:a0:ffff:0:a0:ffff"),
        ([0xa0, 0, 0xffff, 0xd997, 0x357d, 0xa0, 0xffff, 0xffff], "a0:0:ffff:d997:357d:a0:ffff:ffff"),
        ([0xa0, 0, 0, 0, 0x7317, 0, 0xffff, 0xa0], "a0::7317:0:ffff:a0"),
        ([0xffff, 0xa0, 0, 0, 0, 1, 0xa0, 0xa0], "ffff:a0::1:a0:a0"),
        ([0, 0, 0, 0xa0, 0xa0, 0, 0, 0xa0], "::a0:a0:0:0:a0"),
        ([0, 0, 1, 0, 0x2739, 1, 0, 1], "::1:0:2739:1:0:1"),
        ([0, 0xdb5, 0, 0, 0xa0, 0, 0xa0, 0], "0:db5::a0:0:a0:0"),
        ([0, 0xffff, 0xb205, 0xffff, 0xffff, 0x2850, 0, 0xa0], "0:ffff:b205:ffff:ffff:2850:0:a0"),
        ([0xa0, 0xa0, 0x2904, 0xffff, 0, 0xa0, 0xe69, 0xaeeb], "a0:a0:2904:ffff:0:a0:e69:aeeb"),
    ];
    for (w, text) in cases {
        assert_eq!(format_ipv6(&w), text);
    }
}
