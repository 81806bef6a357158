//! Lookup and reverse-lookup behavior of the backend built from parsed
//! configuration, driven through `parse_configs` like the server does.

use aardvark_dns::config::{parse_configs, ConfigFile};
use aardvark_dns::backend::DNSBackend;
use aardvark_dns::config::{ListenEntry4, ListenEntry6};
use aardvark_dns::ip::{IpAddr, Ipv4Addr, Ipv6Addr};

fn ip4(a: u8, b: u8, c: u8, d: u8) -> IpAddr {
    IpAddr::V4(Ipv4Addr { a, b, c, d })
}

fn ip6(g0: u16, g1: u16, g2: u16, g3: u16, g4: u16, g5: u16, g6: u16, g7: u16) -> IpAddr {
    IpAddr::V6(Ipv6Addr { g0, g1, g2, g3, g4, g5, g6, g7 })
}

fn file(name: &str, content: &str) -> ConfigFile {
    ConfigFile { name: name.as_bytes().to_vec(), content: content.as_bytes().to_vec() }
}

/// The directory with one `podman` network file.
fn podman_files() -> Vec<ConfigFile> {
    vec![file(
        "podman",
        "10.88.0.1\n7b46c7ad93fc 10.88.0.2  condescendingnash\n88dde8a24897 10.88.0.4  trustingzhukovsky,ctr1,ctra\na1b2c3d4e5f6 10.88.0.5  helloworld\n",
    )]
}

/// The directory with the two IPv6-bearing network files.
fn podman_v6_files() -> Vec<ConfigFile> {
    vec![
        file(
            "podman_v6_entries",
            "10.89.0.1\n7b46c7ad93fc 10.89.0.2 fdfd:733b:dc3:220b::2 test1,7b46c7ad93fc\n88dde8a24897 10.89.0.3 fdfd:733b:dc3:220b::3 test2,88dde8a24897\n",
        ),
        file(
            "podman_v6_entries_proper",
            "10.0.0.1,10.0.1.1,fdfd::1,fddd::1\nc1 10.0.0.2,10.0.1.2 fdfd::2,fddd::2 testmulti1\nc2 10.0.0.3,10.0.1.3 fdfd::3,fddd::3 testmulti2\n",
        ),
    ]
}

fn parse(files: Vec<ConfigFile>) -> (DNSBackend, Vec<ListenEntry4>, Vec<ListenEntry6>) {
    parse_configs(&files, b"").expect("parse config error")
}

fn listen4_has(plans: &[ListenEntry4], name: &str) -> bool {
    plans.iter().any(|e| e.network == name.as_bytes().to_vec())
}

fn listen6_has(plans: &[ListenEntry6], name: &str) -> bool {
    plans.iter().any(|e| e.network == name.as_bytes().to_vec())
}

#[test]
fn test_lookup_queries_from_backend_simulate_same_container_request_from_v4_on_v4_entries() {
    let res = parse(podman_files()).0.lookup(&ip4(10, 88, 0, 2), b"", b"condescendingnash");
    assert_eq!(res, Some(vec![ip4(10, 88, 0, 2)]));
}

#[test]
fn test_lookup_queries_from_backend_simulate_same_container_request_from_v4_on_v4_entries_case_insensitive(
) {
    let res = parse(podman_files()).0.lookup(&ip4(10, 88, 0, 2), b"", b"helloworld");
    assert_eq!(res, Some(vec![ip4(10, 88, 0, 5)]));
}

#[test]
fn test_lookup_queries_from_backend_simulate_same_container_request_from_v4_on_v4_entries_case_insensitive_uppercase(
) {
    let res = parse(podman_files()).0.lookup(&ip4(10, 88, 0, 2), b"", b"HELLOWORLD");
    assert_eq!(res, Some(vec![ip4(10, 88, 0, 5)]));
}

#[test]
fn test_lookup_queries_from_backend_simulate_nx_domain() {
    let res = parse(podman_files()).0.lookup(&ip4(10, 88, 0, 2), b"", b"somebadquery");
    assert_eq!(res, None);
}

#[test]
fn test_lookup_queries_from_backend_simulate_different_container_request_from_v4() {
    let res = parse(podman_files()).0.lookup(&ip4(10, 88, 0, 2), b"", b"trustingzhukovsky");
    assert_eq!(res, Some(vec![ip4(10, 88, 0, 4)]));
}

#[test]
fn test_lookup_queries_from_backend_simulate_different_container_request_from_v4_by_alias() {
    let res = parse(podman_files()).0.lookup(&ip4(10, 88, 0, 2), b"", b"ctr1");
    assert_eq!(res, Some(vec![ip4(10, 88, 0, 4)]));
}

#[test]
fn test_lookup_queries_from_backend_simulate_same_container_request_from_v4_and_v6_entries() {
    let conf = parse(podman_v6_files());
    assert!(listen4_has(&conf.1, "podman_v6_entries"));
    assert!(!listen6_has(&conf.2, "podman_v6_entries"));

    let ips = conf.0.lookup(&ip4(10, 89, 0, 2), b"", b"test1");
    assert_eq!(
        ips,
        Some(vec![ip4(10, 89, 0, 2), ip6(0xfdfd, 0x733b, 0xdc3, 0x220b, 0, 0, 0, 2)])
    );
    let ips = conf.0.lookup(&ip6(0xfdfd, 0x733b, 0xdc3, 0x220b, 0, 0, 0, 2), b"", b"test1");
    assert_eq!(
        ips,
        Some(vec![ip4(10, 89, 0, 2), ip6(0xfdfd, 0x733b, 0xdc3, 0x220b, 0, 0, 0, 2)])
    );
}

#[test]
fn test_lookup_queries_from_backend_simulate_different_container_request_from_v4_and_v6_entries() {
    let conf = parse(podman_v6_files());
    assert!(listen4_has(&conf.1, "podman_v6_entries"));
    assert!(!listen6_has(&conf.2, "podman_v6_entries"));

    let ips = conf.0.lookup(&ip4(10, 89, 0, 2), b"", b"test2");
    assert_eq!(
        ips,
        Some(vec![ip4(10, 89, 0, 3), ip6(0xfdfd, 0x733b, 0xdc3, 0x220b, 0, 0, 0, 3)])
    );
    let ips = conf.0.lookup(&ip6(0xfdfd, 0x733b, 0xdc3, 0x220b, 0, 0, 0, 2), b"", b"test2");
    assert_eq!(
        ips,
        Some(vec![ip4(10, 89, 0, 3), ip6(0xfdfd, 0x733b, 0xdc3, 0x220b, 0, 0, 0, 3)])
    );
}

#[test]
fn test_lookup_queries_from_backend_simulate_different_container_request_by_id_from_v4_on_v6_and_v4_entries(
) {
    let conf = parse(podman_v6_files());
    assert!(listen4_has(&conf.1, "podman_v6_entries"));
    assert!(!listen6_has(&conf.2, "podman_v6_entries"));

    let ips = conf.0.lookup(&ip4(10, 89, 0, 2), b"", b"88dde8a24897");
    assert_eq!(
        ips,
        Some(vec![ip4(10, 89, 0, 3), ip6(0xfdfd, 0x733b, 0xdc3, 0x220b, 0, 0, 0, 3)])
    );
}

#[test]
fn test_reverse_lookup_queries_from_backend_by_ip_v4() {
    let (backend, _, _) = parse(podman_files());
    match backend.reverse_lookup(&ip4(10, 88, 0, 4), &ip4(10, 88, 0, 4)) {
        Some(lookup_vec) => {
            assert_eq!(
                vec![
                    b"trustingzhukovsky".to_vec(),
                    b"ctr1".to_vec(),
                    b"ctra".to_vec()
                ],
                lookup_vec
            );
        }
        _ => panic!("unexpected dns result"),
    }
}

#[test]
fn test_reverse_lookup_queries_from_backend_by_ip_v6() {
    let (backend, _, _) = parse(podman_v6_files());
    let v6 = ip6(0xfdfd, 0x733b, 0xdc3, 0x220b, 0, 0, 0, 2);
    match backend.reverse_lookup(&v6, &v6) {
        Some(lookup_vec) => {
            assert_eq!(vec![b"test1".to_vec(), b"7b46c7ad93fc".to_vec()], lookup_vec);
        }
        _ => panic!("unexpected dns result"),
    }
}

#[test]
fn test_generated_ip_mappings_in_backend() {
    let (backend, listen_ip_v4, listen_ip_v6) = parse(podman_v6_files());
    assert!(listen4_has(&listen_ip_v4, "podman_v6_entries"));
    assert!(!listen6_has(&listen_ip_v6, "podman_v6_entries"));
    let v6 = ip6(0xfdfd, 0x733b, 0xdc3, 0x220b, 0, 0, 0, 2);
    assert_eq!(
        backend.networks_for_ip(&v6),
        Some(vec![b"podman_v6_entries".to_vec()])
    );
    assert_eq!(
        backend.networks_for_ip(&ip4(10, 89, 0, 3)),
        Some(vec![b"podman_v6_entries".to_vec()])
    );
}

#[test]
fn test_generated_name_mappings_in_backend() {
    let (backend, listen_ip_v4, listen_ip_v6) = parse(podman_v6_files());
    assert!(listen4_has(&listen_ip_v4, "podman_v6_entries"));
    assert!(!listen6_has(&listen_ip_v6, "podman_v6_entries"));
    let net = b"podman_v6_entries";
    assert!(backend.network_name_ips(net, b"7b46c7ad93fc").is_some());
    assert!(backend.network_name_ips(net, b"88dde8a24897").is_some());
    assert_eq!(
        backend.network_name_ips(net, b"test2"),
        Some(vec![ip4(10, 89, 0, 3), ip6(0xfdfd, 0x733b, 0xdc3, 0x220b, 0, 0, 0, 3)])
    );
    assert_eq!(
        backend.network_name_ips(net, b"test1"),
        Some(vec![ip4(10, 89, 0, 2), ip6(0xfdfd, 0x733b, 0xdc3, 0x220b, 0, 0, 0, 2)])
    );
    assert_eq!(
        backend.network_name_ips(net, b"7b46c7ad93fc"),
        Some(vec![ip4(10, 89, 0, 2), ip6(0xfdfd, 0x733b, 0xdc3, 0x220b, 0, 0, 0, 2)])
    );
    assert_eq!(
        backend.network_name_ips(net, b"88dde8a24897"),
        Some(vec![ip4(10, 89, 0, 3), ip6(0xfdfd, 0x733b, 0xdc3, 0x220b, 0, 0, 0, 3)])
    );
}

#[test]
fn test_generated_reverse_mappings_in_backend() {
    let (backend, listen_ip_v4, listen_ip_v6) = parse(podman_v6_files());
    assert!(listen4_has(&listen_ip_v4, "podman_v6_entries"));
    assert!(!listen6_has(&listen_ip_v6, "podman_v6_entries"));
    let net = b"podman_v6_entries";
    assert!(backend.network_reverse_names(net, &ip4(10, 89, 0, 3)).is_some());
    assert!(backend.network_reverse_names(net, &ip4(10, 89, 0, 2)).is_some());
    assert!(backend
        .network_reverse_names(net, &ip6(0xfdfd, 0x733b, 0xdc3, 0x220b, 0, 0, 0, 2))
        .is_some());
    assert!(backend
        .network_reverse_names(net, &ip6(0xfdfd, 0x733b, 0xdc3, 0x220b, 0, 0, 0, 3))
        .is_some());
}

#[test]
fn test_parse_multiple_ipv4_ipv6_addresses() {
    let (backend, listen_ip_v4, listen_ip_v6) = parse(podman_v6_files());
    let l4 = listen_ip_v4
        .iter()
        .find(|e| e.network == b"podman_v6_entries_proper".to_vec())
        .expect("missing v4 plan");
    assert_eq!(
        l4.addrs,
        vec![
            Ipv4Addr { a: 10, b: 0, c: 0, d: 1 },
            Ipv4Addr { a: 10, b: 0, c: 1, d: 1 }
        ]
    );
    let l6 = listen_ip_v6
        .iter()
        .find(|e| e.network == b"podman_v6_entries_proper".to_vec())
        .expect("missing v6 plan");
    assert_eq!(
        l6.addrs,
        vec![
            Ipv6Addr { g0: 0xfdfd, g1: 0, g2: 0, g3: 0, g4: 0, g5: 0, g6: 0, g7: 1 },
            Ipv6Addr { g0: 0xfddd, g1: 0, g2: 0, g3: 0, g4: 0, g5: 0, g6: 0, g7: 1 }
        ]
    );
    match backend.lookup(&ip4(10, 0, 0, 2), b"", b"testmulti1") {
        Some(ip_vec) => {
            assert_eq!(
                ip_vec,
                vec![
                    ip4(10, 0, 0, 2),
                    ip4(10, 0, 1, 2),
                    ip6(0xfdfd, 0, 0, 0, 0, 0, 0, 2),
                    ip6(0xfddd, 0, 0, 0, 0, 0, 0, 2)
                ]
            )
        }
        _ => panic!("unexpected dns result"),
    }
    match backend.lookup(&ip4(10, 0, 0, 2), b"", b"testmulti2") {
        Some(ip_vec) => {
            assert_eq!(
                ip_vec,
                vec![
                    ip4(10, 0, 0, 3),
                    ip4(10, 0, 1, 3),
                    ip6(0xfdfd, 0, 0, 0, 0, 0, 0, 3),
                    ip6(0xfddd, 0, 0, 0, 0, 0, 0, 3)
                ]
            )
        }
        _ => panic!("unexpected dns result"),
    }
}

#[test]
fn test_backend_custom_dns_server() {
    let files = vec![file(
        "podman_custom_dns_servers",
        "10.88.0.1\naaa 10.88.0.2  ctr2 8.8.8.8\nbbb 10.88.0.3  ctr3\nccc 10.88.0.5  ctr5 3.3.3.3,1.1.1.1,::1\n",
    )];
    let (backend, _, _) = parse(files);
    let dns_server = backend.ctr_dns_entry(&ip4(10, 88, 0, 2));
    assert_eq!(dns_server.unwrap().unwrap()[0], ip4(8, 8, 8, 8));

    let dns_server = backend.ctr_dns_entry(&ip4(10, 88, 0, 5)).unwrap().unwrap();
    assert_eq!(dns_server[0], ip4(3, 3, 3, 3));
    assert_eq!(dns_server[1], ip4(1, 1, 1, 1));
    assert_eq!(dns_server[2], ip6(0, 0, 0, 0, 0, 0, 0, 1));

    let dns_server = backend.ctr_dns_entry(&ip4(10, 88, 0, 3));
    assert_eq!(dns_server.unwrap(), None);
}

#[test]
fn test_backend_network_scoped_custom_dns_server() {
    let files = vec![file(
        "network_scoped_custom_dns",
        "10.88.0.1 127.0.0.1,::2\naaa 10.88.0.2  ctr2\nbbb 10.88.0.3  ctr3\nccc 10.88.0.4  ctr4\nddd 10.88.0.5  ctr5\n",
    )];
    let (backend, _, _) = parse(files);
    let expected = vec![ip4(127, 0, 0, 1), ip6(0, 0, 0, 0, 0, 0, 0, 2)];
    for last in [2u8, 3, 4, 5] {
        let out = backend.get_network_scoped_resolvers(&ip4(10, 88, 0, last));
        assert_eq!(out.unwrap(), expected);
    }
}
