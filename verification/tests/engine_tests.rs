//! End-to-end behavior of the DNS engine over wire bytes.

use aardvark_dns::backend::{
    CtrDnsEntry, DNSBackend, IpNets, NetworkDns, NetworkFlag,
};
use aardvark_dns::config::{parse_configs, ConfigFile};
use aardvark_dns::dns::{
    build_response, parse_query, per_resolver_timeout_ms, process_query, respond, rewrite_txid,
    QueryInfo, QueryOutcome, RecordKind, ReplyAction, ResponsePlan, Rcode,
};
use aardvark_dns::ip::{IpAddr, Ipv4Addr, Ipv6Addr, UpstreamAddr};

fn ip4(a: u8, b: u8, c: u8, d: u8) -> IpAddr {
    IpAddr::V4(Ipv4Addr { a, b, c, d })
}

fn ip6(g0: u16, g1: u16, g2: u16, g3: u16, g4: u16, g5: u16, g6: u16, g7: u16) -> IpAddr {
    IpAddr::V6(Ipv6Addr { g0, g1, g2, g3, g4, g5, g6, g7 })
}

fn file(name: &str, content: &str) -> ConfigFile {
    ConfigFile { name: name.as_bytes().to_vec(), content: content.as_bytes().to_vec() }
}

fn scenario_backend(filter: &[u8]) -> DNSBackend {
    let files = vec![
        file(
            "podman",
            "10.88.0.1\n7b46c7ad93fc 10.88.0.2  condescendingnash\n88dde8a24897 10.88.0.4  trustingzhukovsky,ctr1,ctra\na1b2c3d4e5f6 10.88.0.5  helloworld\n",
        ),
        file(
            "podman_v6_entries",
            "10.89.0.1\n7b46c7ad93fc 10.89.0.2 fdfd:733b:dc3:220b::2 test1\n88dde8a24897 10.89.0.3 fdfd:733b:dc3:220b::3 test2\n",
        ),
    ];
    parse_configs(&files, filter).expect("parse config error").0
}

/// A serialized query: one question, recursion desired.
fn query(id: u16, name: &str, qtype: u16) -> Vec<u8> {
    let mut b = vec![(id >> 8) as u8, id as u8, 1, 0, 0, 1, 0, 0, 0, 0, 0, 0];
    for label in name.split('.').filter(|l| !l.is_empty()) {
        b.push(label.len() as u8);
        b.extend_from_slice(label.as_bytes());
    }
    b.push(0);
    b.push((qtype >> 8) as u8);
    b.push(qtype as u8);
    b.push(0);
    b.push(1);
    b
}

fn send_bytes(r: ReplyAction) -> Vec<u8> {
    match r {
        ReplyAction::Send(b) => b,
        _ => panic!("expected a reply"),
    }
}

fn ancount(out: &[u8]) -> u16 {
    (out[6] as u16) << 8 | out[7] as u16
}

#[test]
fn test_a_query_answers_one_a_record_with_ttl_zero() {
    let backend = scenario_backend(b"");
    let req = query(0x1234, "trustingzhukovsky.", 1);
    let out = send_bytes(respond(&backend, false, b"podman", &vec![], &ip4(10, 88, 0, 2), &req));
    // id echoed, response bit set
    assert_eq!(&out[0..2], &req[0..2]);
    assert!(out[2] & 0x80 != 0);
    // recursion was desired, so recursion-available is set
    assert!(out[3] & 0x80 != 0);
    assert_eq!(ancount(&out), 1);
    // the answer follows the question verbatim: a pointer to the query
    // name, type A, class IN, TTL 0, and the address
    let off = req.len();
    assert_eq!(
        &out[off..],
        &[0xC0, 0x0C, 0, 1, 0, 1, 0, 0, 0, 0, 0, 4, 10, 88, 0, 4][..]
    );
}

#[test]
fn test_a_query_is_case_insensitive_on_the_wire() {
    let backend = scenario_backend(b"");
    let req = query(7, "HELLOWORLD.", 1);
    let out = send_bytes(respond(&backend, false, b"podman", &vec![], &ip4(10, 88, 0, 2), &req));
    assert_eq!(ancount(&out), 1);
    let off = req.len();
    assert_eq!(&out[off + 12..off + 16], &[10, 88, 0, 5][..]);
}

#[test]
fn test_unknown_name_with_no_proxy_yields_nxdomain() {
    let backend = scenario_backend(b"");
    let req = query(9, "somebadquery.", 1);
    let out = send_bytes(respond(&backend, true, b"podman", &vec![], &ip4(10, 88, 0, 2), &req));
    assert_eq!(out[3] & 0x0F, 3);
    assert_eq!(ancount(&out), 0);
}

#[test]
fn test_v6_network_answers_by_family() {
    let backend = scenario_backend(b"");
    // an A query returns only the IPv4 address
    let req = query(11, "test1.", 1);
    let out = send_bytes(respond(&backend, false, b"podman_v6_entries", &vec![], &ip4(10, 89, 0, 2), &req));
    assert_eq!(ancount(&out), 1);
    let off = req.len();
    assert_eq!(&out[off + 12..off + 16], &[10, 89, 0, 2][..]);
    // an AAAA query from the IPv6 address returns only the IPv6 one
    let req = query(12, "test1.", 28);
    let v6 = ip6(0xfdfd, 0x733b, 0xdc3, 0x220b, 0, 0, 0, 2);
    let out = send_bytes(respond(&backend, false, b"podman_v6_entries", &vec![], &v6, &req));
    assert_eq!(ancount(&out), 1);
    let off = req.len();
    assert_eq!(
        &out[off + 12..off + 28],
        &[0xfd, 0xfd, 0x73, 0x3b, 0x0d, 0xc3, 0x22, 0x0b, 0, 0, 0, 0, 0, 0, 0, 2][..]
    );
}

#[test]
fn test_ptr_query_answers_names_in_order() {
    let backend = scenario_backend(b"");
    let req = query(21, "4.0.88.10.in-addr.arpa.", 12);
    let out = send_bytes(respond(&backend, false, b"podman", &vec![], &ip4(10, 88, 0, 2), &req));
    assert_eq!(ancount(&out), 3);
    let mut off = req.len();
    for expected in ["trustingzhukovsky", "ctr1", "ctra"] {
        assert_eq!(&out[off..off + 2], &[0xC0, 0x0C][..]);
        assert_eq!(&out[off + 2..off + 8], &[0, 12, 0, 1, 0, 0][..]);
        assert_eq!(&out[off + 8..off + 10], &[0, 0][..]);
        let rdlen = ((out[off + 10] as usize) << 8) | out[off + 11] as usize;
        let mut rdata = vec![expected.len() as u8];
        rdata.extend_from_slice(expected.as_bytes());
        rdata.push(0);
        assert_eq!(&out[off + 12..off + 12 + rdlen], &rdata[..]);
        off = off + 12 + rdlen;
    }
    assert_eq!(off, out.len());
}

#[test]
fn test_unparseable_ptr_address_falls_through_to_forwarding() {
    let backend = scenario_backend(b".dns.podman");
    let req = query(5, "300.1.2.3.in-addr.arpa.", 12);
    let hosts = vec![UpstreamAddr { ip: ip4(9, 9, 9, 9), port: 53, scope_id: 0 }];
    match respond(&backend, false, b"podman", &hosts, &ip4(10, 88, 0, 2), &req) {
        ReplyAction::Forward(plan) => {
            assert_eq!(plan.resolvers, hosts);
        }
        _ => panic!("expected forwarding"),
    }
}

#[test]
fn test_unknown_requester_with_fallback_network_is_restricted_to_it() {
    let backend = scenario_backend(b"");
    // the fallback network serves its own names
    assert_eq!(
        backend.lookup(&ip4(9, 9, 9, 9), b"podman", b"helloworld"),
        Some(vec![ip4(10, 88, 0, 5)])
    );
    // but not the names of other networks
    assert_eq!(backend.lookup(&ip4(9, 9, 9, 9), b"podman", b"test1"), None);
}

#[test]
fn test_unknown_requester_without_fallback_forwards() {
    let backend = scenario_backend(b".dns.podman");
    assert_eq!(backend.lookup(&ip4(9, 9, 9, 9), b"", b"helloworld"), None);
    assert!(!backend.ctr_is_internal(&ip4(9, 9, 9, 9)));
    let req = query(3, "helloworld.", 1);
    match respond(&backend, false, b"", &vec![], &ip4(9, 9, 9, 9), &req) {
        ReplyAction::Forward(_) => {}
        _ => panic!("expected forwarding"),
    }
}

#[test]
fn test_search_domain_gates_forwarding() {
    let backend = scenario_backend(b".dns.podman");
    // a miss under the search domain is refused rather than forwarded
    let req = query(4, "nosuchname.dns.podman.", 1);
    let out = send_bytes(respond(&backend, false, b"podman", &vec![], &ip4(10, 88, 0, 2), &req));
    assert_eq!(out[3] & 0x0F, 3);
    // while a hit under the search domain is answered
    let req = query(5, "helloworld.dns.podman.", 1);
    let out = send_bytes(respond(&backend, false, b"podman", &vec![], &ip4(10, 88, 0, 2), &req));
    assert_eq!(ancount(&out), 1);
}

#[test]
fn test_search_domain_and_trailing_dot_idempotence() {
    let backend = scenario_backend(b".dns.podman");
    let plain = backend.lookup(&ip4(10, 88, 0, 2), b"", b"helloworld");
    let with_domain = backend.lookup(&ip4(10, 88, 0, 2), b"", b"helloworld.dns.podman.");
    let with_dot = backend.lookup(&ip4(10, 88, 0, 2), b"", b"helloworld.");
    let upper = backend.lookup(&ip4(10, 88, 0, 2), b"", b"HELLOWORLD");
    assert_eq!(plain, Some(vec![ip4(10, 88, 0, 5)]));
    assert_eq!(with_domain, plain);
    assert_eq!(with_dot, plain);
    assert_eq!(upper, plain);
}

#[test]
fn test_container_resolvers_take_precedence_over_host() {
    let files = vec![file(
        "net1",
        "10.88.0.1 7.7.7.7\naaa 10.88.0.2  ctr2 8.8.8.8\nbbb 10.88.0.3  ctr3\n",
    )];
    let backend = parse_configs(&files, b".dns.podman").unwrap().0;
    let hosts = vec![UpstreamAddr { ip: ip4(9, 9, 9, 9), port: 53, scope_id: 0 }];
    let req = query(6, "elsewhere.", 1);
    // the container with its own resolvers forwards to them
    match respond(&backend, false, b"net1", &hosts, &ip4(10, 88, 0, 2), &req) {
        ReplyAction::Forward(plan) => {
            assert_eq!(plan.resolvers.len(), 1);
            assert_eq!(plan.resolvers[0].ip, ip4(8, 8, 8, 8));
            assert_eq!(plan.resolvers[0].port, 53);
        }
        _ => panic!("expected forwarding"),
    }
    // one without them forwards to the network's resolvers
    match respond(&backend, false, b"net1", &hosts, &ip4(10, 88, 0, 3), &req) {
        ReplyAction::Forward(plan) => {
            assert_eq!(plan.resolvers.len(), 1);
            assert_eq!(plan.resolvers[0].ip, ip4(7, 7, 7, 7));
        }
        _ => panic!("expected forwarding"),
    }
    // an unknown requester falls back to the host resolvers
    match respond(&backend, false, b"", &hosts, &ip4(9, 9, 9, 8), &req) {
        ReplyAction::Forward(plan) => {
            assert_eq!(plan.resolvers, hosts);
        }
        _ => panic!("expected forwarding"),
    }
}

#[test]
fn test_internal_network_member_is_never_forwarded() {
    let files = vec![file("closed%int", "10.90.0.1\nzzz 10.90.0.2  ctrz\n")];
    let backend = parse_configs(&files, b"").unwrap().0;
    assert!(backend.ctr_is_internal(&ip4(10, 90, 0, 2)));
    let req = query(8, "elsewhere.", 1);
    let hosts = vec![UpstreamAddr { ip: ip4(9, 9, 9, 9), port: 53, scope_id: 0 }];
    // even without no_proxy, the reply is NXDOMAIN, not a forward
    let out = send_bytes(respond(&backend, false, b"closed", &hosts, &ip4(10, 90, 0, 2), &req));
    assert_eq!(out[3] & 0x0F, 3);
    // and with no_proxy set the answer is the same
    let out = send_bytes(respond(&backend, true, b"closed", &hosts, &ip4(10, 90, 0, 2), &req));
    assert_eq!(out[3] & 0x0F, 3);
}

#[test]
fn test_per_resolver_timeout_splits_the_budget() {
    assert_eq!(per_resolver_timeout_ms(1), 5000);
    assert_eq!(per_resolver_timeout_ms(2), 2500);
    assert_eq!(per_resolver_timeout_ms(3), 1666);
    assert_eq!(per_resolver_timeout_ms(0), 5000);
}

#[test]
fn test_parse_query_reads_header_and_first_question() {
    let req = query(0xBEEF, "abc.de.", 28);
    let q = parse_query(&req).expect("parse failed");
    assert_eq!(q.id, 0xBEEF);
    assert!(q.recursion_desired);
    assert!(!q.recursion_available);
    assert_eq!(q.name, b"abc.de.".to_vec());
    assert_eq!(q.kind, RecordKind::Aaaa);
    // a short message does not parse
    assert!(parse_query(&[0u8; 11]).is_none());
    // a compressed name in the question does not parse
    let mut bad = query(1, "x.", 1);
    bad[12] = 0xC0;
    assert!(parse_query(&bad).is_none());
}

#[test]
fn test_build_response_echoes_question_and_counts() {
    let req = query(42, "a.", 1);
    let plan = ResponsePlan {
        id: 42,
        set_recursion_available: true,
        rcode: Rcode::Keep,
        answers: vec![],
    };
    let out = build_response(&req, &plan).expect("build failed");
    assert_eq!(out.len(), req.len());
    assert_eq!(&out[12..], &req[12..]);
    assert_eq!(ancount(&out), 0);
    // authority and additional counts are cleared
    assert_eq!(&out[8..12], &[0, 0, 0, 0][..]);
}

#[test]
fn test_rewrite_txid_touches_only_the_id() {
    let mut bytes = query(0x1111, "a.", 1);
    let orig = bytes.clone();
    rewrite_txid(&mut bytes, 0xABCD);
    assert_eq!(bytes[0], 0xAB);
    assert_eq!(bytes[1], 0xCD);
    assert_eq!(&bytes[2..], &orig[2..]);
}

#[test]
fn test_empty_container_resolver_list_falls_back_to_network_list() {
    // a container entry holding an empty resolver list must not shadow
    // the network-scoped list: precedence is container if non-empty,
    // else network, else host
    let requester = ip4(10, 88, 0, 2);
    let backend = DNSBackend::new(
        vec![IpNets { ip: requester, networks: vec![b"net1".to_vec()] }],
        vec![],
        vec![],
        vec![CtrDnsEntry { ip: requester, servers: Some(vec![]) }],
        vec![NetworkDns { network: b"net1".to_vec(), servers: vec![ip4(7, 7, 7, 7)] }],
        vec![NetworkFlag { network: b"net1".to_vec(), internal: false }],
        b".dns.podman".to_vec(),
    );
    let hosts = vec![UpstreamAddr { ip: ip4(9, 9, 9, 9), port: 53, scope_id: 0 }];
    let req = query(13, "elsewhere.", 1);
    match respond(&backend, false, b"net1", &hosts, &requester, &req) {
        ReplyAction::Forward(plan) => {
            assert_eq!(plan.resolvers.len(), 1);
            assert_eq!(plan.resolvers[0].ip, ip4(7, 7, 7, 7));
        }
        _ => panic!("expected forwarding"),
    }
}

#[test]
fn test_two_question_message_is_answered_for_the_first() {
    let backend = scenario_backend(b"");
    // two questions: the first resolvable, the second arbitrary
    let mut req = query(31, "helloworld.", 1);
    req[5] = 2;
    for label in ["other"] {
        req.push(label.len() as u8);
        req.extend_from_slice(label.as_bytes());
    }
    req.push(0);
    req.extend_from_slice(&[0, 1, 0, 1]);
    let out = send_bytes(respond(&backend, false, b"podman", &vec![], &ip4(10, 88, 0, 2), &req));
    assert_eq!(ancount(&out), 1);
    // both questions are kept, and the answer comes right after them
    assert_eq!(&out[12..req.len()], &req[12..]);
    let off = req.len();
    assert_eq!(
        &out[off..],
        &[0xC0, 0x0C, 0, 1, 0, 1, 0, 0, 0, 0, 0, 4, 10, 88, 0, 5][..]
    );
}

#[test]
fn test_reply_carries_additional_section() {
    let backend = scenario_backend(b"");
    // a request with an OPT record in the additional section: root
    // name, type 41, a 512-byte payload size, and empty data
    let mut req = query(32, "helloworld.", 1);
    req[11] = 1;
    let qlen = req.len();
    let opt: [u8; 11] = [0, 0, 41, 2, 0, 0, 0, 0, 0, 0, 0];
    req.extend_from_slice(&opt);
    let out = send_bytes(respond(&backend, false, b"podman", &vec![], &ip4(10, 88, 0, 2), &req));
    assert_eq!(ancount(&out), 1);
    // the additional count survives, and the OPT record follows the
    // synthesized answer unchanged
    assert_eq!(&out[8..12], &[0, 0, 0, 1][..]);
    let off = qlen;
    assert_eq!(
        &out[off..off + 16],
        &[0xC0, 0x0C, 0, 1, 0, 1, 0, 0, 0, 0, 0, 4, 10, 88, 0, 5][..]
    );
    assert_eq!(&out[off + 16..], &opt[..]);
}

#[test]
fn test_process_query_outcome_for_queryless_message() {
    // a message with no question is treated as an A query for the
    // empty name, which misses and so falls through to forwarding
    let backend = scenario_backend(b".dns.podman");
    let q = QueryInfo {
        id: 1,
        recursion_desired: false,
        recursion_available: false,
        name: Vec::new(),
        kind: RecordKind::A,
    };
    match process_query(&backend, false, b"podman", &vec![], &ip4(10, 88, 0, 2), &q) {
        QueryOutcome::Forward(_) => {}
        _ => panic!("expected forwarding"),
    }
}
