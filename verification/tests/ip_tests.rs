//! The IP literal grammar, the error model, and the VRF scan logic.

use aardvark_dns::error::{AardvarkError, AardvarkErrorList};
use aardvark_dns::ip::{parse_ip, parse_ipv4, parse_ipv6, IpAddr, Ipv4Addr, Ipv6Addr};
use aardvark_dns::vrf::{find_address_index, find_controller, vrf_name, AddrRecord, LinkAttr};

fn ip4(a: u8, b: u8, c: u8, d: u8) -> IpAddr {
    IpAddr::V4(Ipv4Addr { a, b, c, d })
}

fn v6(g0: u16, g1: u16, g2: u16, g3: u16, g4: u16, g5: u16, g6: u16, g7: u16) -> Ipv6Addr {
    Ipv6Addr { g0, g1, g2, g3, g4, g5, g6, g7 }
}

#[test]
fn test_parse_ipv4_literals() {
    assert_eq!(parse_ipv4(b"10.88.0.1"), Some(Ipv4Addr { a: 10, b: 88, c: 0, d: 1 }));
    assert_eq!(parse_ipv4(b"0.0.0.0"), Some(Ipv4Addr { a: 0, b: 0, c: 0, d: 0 }));
    assert_eq!(parse_ipv4(b"255.255.255.255"), Some(Ipv4Addr { a: 255, b: 255, c: 255, d: 255 }));
    assert_eq!(parse_ipv4(b"256.1.1.1"), None);
    assert_eq!(parse_ipv4(b"1.2.3"), None);
    assert_eq!(parse_ipv4(b"1.2.3.4.5"), None);
    assert_eq!(parse_ipv4(b"1.2.3.04"), None);
    assert_eq!(parse_ipv4(b"1.2.3."), None);
    assert_eq!(parse_ipv4(b""), None);
}

#[test]
fn test_parse_ipv6_literals() {
    assert_eq!(
        parse_ipv6(b"fdfd:733b:dc3:220b::2"),
        Some(v6(0xfdfd, 0x733b, 0xdc3, 0x220b, 0, 0, 0, 2))
    );
    assert_eq!(parse_ipv6(b"::"), Some(v6(0, 0, 0, 0, 0, 0, 0, 0)));
    assert_eq!(parse_ipv6(b"::1"), Some(v6(0, 0, 0, 0, 0, 0, 0, 1)));
    assert_eq!(parse_ipv6(b"fe80::"), Some(v6(0xfe80, 0, 0, 0, 0, 0, 0, 0)));
    assert_eq!(
        parse_ipv6(b"1:2:3:4:5:6:7:8"),
        Some(v6(1, 2, 3, 4, 5, 6, 7, 8))
    );
    assert_eq!(parse_ipv6(b"1:2:3:4:5:6:7"), None);
    assert_eq!(parse_ipv6(b"1:2:3:4:5:6:7:8:9"), None);
    assert_eq!(parse_ipv6(b":::"), None);
    assert_eq!(parse_ipv6(b"a::b::c"), None);
    assert_eq!(parse_ipv6(b"12345::"), None);
    assert_eq!(parse_ipv6(b"zzzz::"), None);
}

#[test]
fn test_parse_ipv6_embedded_ipv4_tail() {
    assert_eq!(
        parse_ipv6(b"::ffff:1.2.3.4"),
        Some(v6(0, 0, 0, 0, 0, 0xffff, 0x0102, 0x0304))
    );
    assert_eq!(parse_ipv6(b"::1.2.3.4"), Some(v6(0, 0, 0, 0, 0, 0, 0x0102, 0x0304)));
    assert_eq!(
        parse_ipv6(b"1:2:3:4:5:6:1.2.3.4"),
        Some(v6(1, 2, 3, 4, 5, 6, 0x0102, 0x0304))
    );
    assert_eq!(parse_ipv6(b"a::1.2.3.4"), Some(v6(0xa, 0, 0, 0, 0, 0, 0x0102, 0x0304)));
    assert_eq!(
        parse_ipv6(b"a::b:1.2.3.4"),
        Some(v6(0xa, 0, 0, 0, 0, 0xb, 0x0102, 0x0304))
    );
    // too many groups, a bare quad, or a malformed tail stay rejected
    assert_eq!(parse_ipv6(b"1:2:3:4:5:6:7:1.2.3.4"), None);
    assert_eq!(parse_ipv6(b"1.2.3.4"), None);
    assert_eq!(parse_ipv6(b"::1.2.3.400"), None);
    assert_eq!(parse_ipv6(b":1.2.3.4"), None);
}

#[test]
fn test_parse_ip_tries_both_families() {
    assert_eq!(parse_ip(b"10.0.0.1"), Some(ip4(10, 0, 0, 1)));
    assert_eq!(parse_ip(b"::2"), Some(IpAddr::V6(v6(0, 0, 0, 0, 0, 0, 0, 2))));
    assert_eq!(parse_ip(b"nonsense"), None);
}

#[test]
fn test_error_constructors() {
    match AardvarkError::msg(String::from("boom")) {
        AardvarkError::Message(m) => assert_eq!(m, "boom"),
        _ => panic!("wrong variant"),
    }
    match AardvarkError::wrap(String::from("ctx"), AardvarkError::msg(String::from("inner"))) {
        AardvarkError::Chain(m, inner) => {
            assert_eq!(m, "ctx");
            assert!(matches!(*inner, AardvarkError::Message(_)));
        }
        _ => panic!("wrong variant"),
    }
    let mut list = AardvarkErrorList::new();
    assert!(list.is_empty());
    list.push(AardvarkError::msg(String::from("one")));
    assert!(!list.is_empty());
}

#[test]
fn test_vrf_scan_logic() {
    let addrs = vec![
        AddrRecord { ip: ip4(10, 0, 0, 1), index: 3 },
        AddrRecord { ip: ip4(10, 0, 0, 2), index: 7 },
    ];
    assert_eq!(find_address_index(&addrs, &ip4(10, 0, 0, 2)), Some(7));
    assert_eq!(find_address_index(&addrs, &ip4(10, 0, 0, 9)), None);

    let attrs = vec![
        LinkAttr::Other,
        LinkAttr::Controller(12),
        LinkAttr::Controller(13),
    ];
    assert_eq!(find_controller(&attrs), Some(12));
    assert_eq!(find_controller(&vec![LinkAttr::Other]), None);

    // a link is reported as a VRF only when its info list says so
    let vrf_attrs = vec![
        LinkAttr::IfName(b"blue".to_vec()),
        LinkAttr::Info(vec![false, true]),
    ];
    assert_eq!(vrf_name(&vrf_attrs), Some(b"blue".to_vec()));
    let plain_attrs = vec![
        LinkAttr::IfName(b"eth0".to_vec()),
        LinkAttr::Info(vec![false]),
    ];
    assert_eq!(vrf_name(&plain_attrs), None);
}
