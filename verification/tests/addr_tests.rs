use rust_network_mgr::addr::{ipv4_string, ipv6_string, parse_ip, parse_ipv4, parse_ipv6};
use rust_network_mgr::types::IpAddress;

#[test]
fn ipv4_round_trip_text() {
    let a = parse_ipv4("203.0.113.5").expect("valid dotted quad");
    assert_eq!(a, (203u32 << 24) | (113u32 << 8) | 5);
    assert_eq!(ipv4_string(a), "203.0.113.5");
    assert_eq!(ipv4_string(0), "0.0.0.0");
    assert_eq!(ipv4_string(u32::MAX), "255.255.255.255");
}

#[test]
fn ipv4_parse_rejects_bad_text() {
    assert!(parse_ipv4("").is_none());
    assert!(parse_ipv4("1.2.3").is_none());
    assert!(parse_ipv4("1.2.3.4.5").is_none());
    assert!(parse_ipv4("256.0.0.1").is_none());
    assert!(parse_ipv4("01.2.3.4").is_none());
    assert!(parse_ipv4("1..2.3").is_none());
    assert!(parse_ipv4("1.2.3.4 ").is_none());
    assert!(parse_ipv4("a.b.c.d").is_none());
}

#[test]
fn ipv6_parse_full_form() {
    let a = parse_ipv6("2001:db8:0:0:0:0:0:1").expect("full form");
    assert_eq!(a, (0x2001u128 << 112) | (0x0db8u128 << 96) | 1);
    assert_eq!(ipv6_string(a), "2001:db8:0:0:0:0:0:1");
}

#[test]
fn ipv6_parse_compressed() {
    let a = parse_ipv6("2001:db8::1").expect("compressed form");
    assert_eq!(a, (0x2001u128 << 112) | (0x0db8u128 << 96) | 1);
    assert_eq!(parse_ipv6("::1").unwrap(), 1);
    assert_eq!(parse_ipv6("::").unwrap(), 0);
    assert_eq!(parse_ipv6("1::").unwrap(), 1u128 << 112);
    assert_eq!(
        parse_ipv6("fe80::aaaa:bbbb").unwrap(),
        (0xfe80u128 << 112) | (0xaaaau128 << 16) | 0xbbbb
    );
}

#[test]
fn ipv6_parse_rejects_bad_text() {
    assert!(parse_ipv6("").is_none());
    assert!(parse_ipv6(":::").is_none());
    assert!(parse_ipv6("1::2::3").is_none());
    assert!(parse_ipv6("1:2:3:4:5:6:7").is_none());
    assert!(parse_ipv6("1:2:3:4:5:6:7:8:9").is_none());
    assert!(parse_ipv6("12345::").is_none());
    assert!(parse_ipv6("1:").is_none());
    assert!(parse_ipv6(":1:2:3:4:5:6:7").is_none());
    assert!(parse_ipv6("g::1").is_none());
}

#[test]
fn parse_ip_picks_family() {
    match parse_ip("10.0.0.1") {
        Some(IpAddress::V4(v)) => assert_eq!(v, (10u32 << 24) | 1),
        other => panic!("expected v4, got {:?}", other),
    }
    match parse_ip("2001:db8::2") {
        Some(IpAddress::V6(v)) => {
            assert_eq!(v, (0x2001u128 << 112) | (0x0db8u128 << 96) | 2)
        }
        other => panic!("expected v6, got {:?}", other),
    }
    assert!(parse_ip("not an address").is_none());
}

#[test]
fn rendered_addresses_parse_back() {
    for a in [0u32, 1, 0x01020304, 0xfffefdfc, u32::MAX] {
        assert_eq!(parse_ipv4(&ipv4_string(a)), Some(a));
    }
    for a in [0u128, 1, 0x2001_0db8_0000_0000_0000_0000_0000_0001, u128::MAX] {
        assert_eq!(parse_ipv6(&ipv6_string(a)), Some(a));
    }
}

#[test]
fn ipv6_groups_render_without_zero_padding() {
    let a = (0x00a1u128 << 112) | 0x0002;
    assert_eq!(ipv6_string(a), "a1:0:0:0:0:0:0:2");
}
