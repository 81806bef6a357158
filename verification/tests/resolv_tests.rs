//! Behavior of the host resolver-file reader.

use aardvark_dns::ip::{IpAddr, Ipv4Addr, Ipv6Addr, UpstreamAddr};
use aardvark_dns::resolv::parse_resolv_conf;

fn up4(a: u8, b: u8, c: u8, d: u8) -> UpstreamAddr {
    UpstreamAddr { ip: IpAddr::V4(Ipv4Addr { a, b, c, d }), port: 53, scope_id: 0 }
}

fn up6(g: [u16; 8], scope_id: u32) -> UpstreamAddr {
    UpstreamAddr {
        ip: IpAddr::V6(Ipv6Addr {
            g0: g[0],
            g1: g[1],
            g2: g[2],
            g3: g[3],
            g4: g[4],
            g5: g[5],
            g6: g[6],
            g7: g[7],
        }),
        port: 53,
        scope_id,
    }
}

#[test]
fn test_parse_resolv_conf() {
    let res = parse_resolv_conf(b"nameserver 1.1.1.1").expect("failed to parse");
    assert_eq!(res, vec![up4(1, 1, 1, 1)]);
}

#[test]
fn test_parse_resolv_conf_multiple() {
    let res = parse_resolv_conf(
        b"nameserver 1.1.1.1
nameserver 1.1.1.2
nameserver 1.1.1.3",
    )
    .expect("failed to parse");
    assert_eq!(res, vec![up4(1, 1, 1, 1), up4(1, 1, 1, 2), up4(1, 1, 1, 3)]);
}

#[test]
fn test_parse_resolv_conf_search_and_options() {
    let res = parse_resolv_conf(
        b"nameserver 1.1.1.1
nameserver 1.1.1.2
nameserver 1.1.1.3
search test.podman
options rotate",
    )
    .expect("failed to parse");
    assert_eq!(res, vec![up4(1, 1, 1, 1), up4(1, 1, 1, 2), up4(1, 1, 1, 3)]);
}

#[test]
fn test_parse_resolv_conf_with_comment() {
    let res = parse_resolv_conf(
        b"# mytest
            nameserver 1.1.1.1 # space
nameserver 1.1.1.2#nospace
     #leading spaces
nameserver 1.1.1.3",
    )
    .expect("failed to parse");
    assert_eq!(res, vec![up4(1, 1, 1, 1), up4(1, 1, 1, 2), up4(1, 1, 1, 3)]);
}

#[test]
fn test_parse_resolv_conf_with_invalid_content() {
    let res = parse_resolv_conf(
        b"hey I am not known
nameserver 1.1.1.1
nameserver 1.1.1.2 somestuff here
abc
nameserver 1.1.1.3",
    )
    .expect("failed to parse");
    assert_eq!(res, vec![up4(1, 1, 1, 1), up4(1, 1, 1, 2), up4(1, 1, 1, 3)]);
}

#[test]
fn test_parse_resolv_conf_truncate_to_three() {
    let res = parse_resolv_conf(
        b"nameserver 1.1.1.1
nameserver 1.1.1.2
nameserver 1.1.1.3
nameserver 1.1.1.4
nameserver 1.2.3.4",
    )
    .expect("failed to parse");
    assert_eq!(res, vec![up4(1, 1, 1, 1), up4(1, 1, 1, 2), up4(1, 1, 1, 3)]);
}

#[test]
fn test_parse_resolv_conf_with_invalid_ip() {
    parse_resolv_conf(b"nameserver abc").expect_err("invalid ip must error");
}

#[test]
fn test_parse_resolv_ipv6() {
    let res = parse_resolv_conf(
        b"nameserver fdfd:733b:dc3:220b::2
nameserver 1.1.1.2",
    )
    .expect("failed to parse");
    assert_eq!(
        res,
        vec![
            up6([0xfdfd, 0x733b, 0xdc3, 0x220b, 0, 0, 0, 2], 0),
            up4(1, 1, 1, 2)
        ]
    );
}

#[test]
fn test_parse_resolv_ipv6_link_local_zone() {
    // Using lo here because we know that will always be id 1 and we
    // cannot assume any other interface name here.
    let res = parse_resolv_conf(b"nameserver fe80::1%lo\n").expect("failed to parse");
    assert_eq!(res, vec![up6([0xfe80, 0, 0, 0, 0, 0, 0, 1], 1)]);
}

#[test]
fn test_parse_resolv_ipv6_link_local_zone_id() {
    let res = parse_resolv_conf(b"nameserver fe80::1%1\n").expect("failed to parse");
    assert_eq!(res, vec![up6([0xfe80, 0, 0, 0, 0, 0, 0, 1], 1)]);
}

#[test]
fn test_parse_resolv_ipv6_link_local_plus_signed_zone_id() {
    let res = parse_resolv_conf(b"nameserver fe80::1%+1\n").expect("failed to parse");
    assert_eq!(res, vec![up6([0xfe80, 0, 0, 0, 0, 0, 0, 1], 1)]);
}

#[test]
fn test_parse_resolv_scope_on_ipv4_is_rejected() {
    parse_resolv_conf(b"nameserver 1.1.1.1%1\n").expect_err("scope on ipv4 must error");
}
