//! The supervisor's reload plan.

use aardvark_dns::config::{parse_configs, ConfigFile};
use aardvark_dns::dns::{forward_first, forward_next, ForwardStep};
use aardvark_dns::ip::{IpAddr, Ipv4Addr, UpstreamAddr};
use aardvark_dns::reconcile::{expand_plan4, expand_plan6, reconcile_plan, ListenerId};

fn ip4(a: u8, b: u8, c: u8, d: u8) -> IpAddr {
    IpAddr::V4(Ipv4Addr { a, b, c, d })
}

fn file(name: &str, content: &str) -> ConfigFile {
    ConfigFile { name: name.as_bytes().to_vec(), content: content.as_bytes().to_vec() }
}

fn both_files() -> Vec<ConfigFile> {
    vec![
        file("podman", "10.88.0.1\naaa 10.88.0.2  ctr2\n"),
        file("podman_v6_entries", "10.89.0.1\nbbb 10.89.0.2  ctr3\n"),
    ]
}

fn ids_for(files: Vec<ConfigFile>) -> Vec<ListenerId> {
    let (_, plan4, plan6) = parse_configs(&files, b"").unwrap();
    let mut ids = expand_plan4(&plan4);
    ids.extend(expand_plan6(&plan6));
    ids
}

#[test]
fn test_identical_listen_plan_changes_nothing() {
    let running = ids_for(both_files());
    let expected = ids_for(both_files());
    let (to_stop, to_start) = reconcile_plan(&running, &expected);
    assert!(to_stop.is_empty());
    assert!(to_start.is_empty());
}

#[test]
fn test_removed_network_stops_only_its_listener() {
    // after removing the podman file, its listener is stopped, the
    // other keeps running, and nothing new is started
    let running = ids_for(both_files());
    let expected = ids_for(vec![file("podman_v6_entries", "10.89.0.1\nbbb 10.89.0.2  ctr3\n")]);
    let (to_stop, to_start) = reconcile_plan(&running, &expected);
    assert_eq!(to_stop.len(), 1);
    assert_eq!(to_stop[0].network, b"podman".to_vec());
    assert_eq!(to_stop[0].ip, ip4(10, 88, 0, 1));
    assert!(to_start.is_empty());
}

#[test]
fn test_added_network_starts_only_its_listener() {
    let running = ids_for(vec![file("podman", "10.88.0.1\naaa 10.88.0.2  ctr2\n")]);
    let expected = ids_for(both_files());
    let (to_stop, to_start) = reconcile_plan(&running, &expected);
    assert!(to_stop.is_empty());
    assert_eq!(to_start.len(), 1);
    assert_eq!(to_start[0].network, b"podman_v6_entries".to_vec());
    assert_eq!(to_start[0].ip, ip4(10, 89, 0, 1));
}

#[test]
fn test_moved_listen_address_is_stopped_and_started() {
    // the same address under a new network name is a different
    // listener identity: the old one stops, the new one starts
    let running = ids_for(vec![file("podman", "10.88.0.1\naaa 10.88.0.2  ctr2\n")]);
    let expected = ids_for(vec![file("renamed", "10.88.0.1\naaa 10.88.0.2  ctr2\n")]);
    let (to_stop, to_start) = reconcile_plan(&running, &expected);
    assert_eq!(to_stop.len(), 1);
    assert_eq!(to_stop[0].network, b"podman".to_vec());
    assert_eq!(to_start.len(), 1);
    assert_eq!(to_start[0].network, b"renamed".to_vec());
}

#[test]
fn test_forwarding_tries_resolvers_strictly_in_order() {
    let resolvers = vec![
        UpstreamAddr { ip: ip4(1, 1, 1, 1), port: 53, scope_id: 0 },
        UpstreamAddr { ip: ip4(2, 2, 2, 2), port: 53, scope_id: 0 },
        UpstreamAddr { ip: ip4(3, 3, 3, 3), port: 53, scope_id: 0 },
    ];
    assert_eq!(forward_first(&resolvers), Some(resolvers[0]));
    // failures walk the list in order
    assert_eq!(forward_next(&resolvers, 0, false), ForwardStep::Try(resolvers[1]));
    assert_eq!(forward_next(&resolvers, 1, false), ForwardStep::Try(resolvers[2]));
    assert_eq!(forward_next(&resolvers, 2, false), ForwardStep::GiveUp);
    // a reply aborts further attempts at once
    assert_eq!(forward_next(&resolvers, 0, true), ForwardStep::Deliver);
    assert_eq!(forward_first(&Vec::new()), None);
}
