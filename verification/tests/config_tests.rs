//! Loading and parsing of network configuration files.

use aardvark_dns::config::{parse_config, parse_configs, ConfigFile};
use aardvark_dns::error::AardvarkError;
use aardvark_dns::ip::Ipv4Addr;

fn file(name: &str, content: &str) -> ConfigFile {
    ConfigFile { name: name.as_bytes().to_vec(), content: content.as_bytes().to_vec() }
}

fn podman_files() -> Vec<ConfigFile> {
    vec![file(
        "podman",
        "10.88.0.1\n7b46c7ad93fc 10.88.0.2  condescendingnash\n88dde8a24897 10.88.0.4  trustingzhukovsky,ctr1,ctra\na1b2c3d4e5f6 10.88.0.5  helloworld\n",
    )]
}

#[test]
fn test_loading_config_file() {
    parse_configs(&podman_files(), b"").unwrap();
}

#[test]
fn test_loading_config_file_with_dns_servers() {
    let files = vec![file(
        "podman_custom_dns_servers",
        "10.88.0.1\naaa 10.88.0.2  ctr2 8.8.8.8\nbbb 10.88.0.3  ctr3\nccc 10.88.0.5  ctr5 3.3.3.3,1.1.1.1,::1\n",
    )];
    parse_configs(&files, b"").unwrap();
}

#[test]
fn test_loading_config_file_with_network_scoped_dns_servers() {
    let files = vec![file(
        "network_scoped_custom_dns",
        "10.88.0.1 127.0.0.1,::2\naaa 10.88.0.2  ctr2\nbbb 10.88.0.3  ctr3\n",
    )];
    parse_configs(&files, b"").unwrap();
}

#[test]
fn test_parsing_config_files() {
    match parse_configs(&podman_files(), b"") {
        Ok((_, listen_ip_v4, _)) => {
            let plan = listen_ip_v4
                .iter()
                .find(|e| e.network == b"podman".to_vec())
                .expect("podman plan missing");
            assert_eq!(plan.addrs.len(), 1);
            assert_eq!(plan.addrs[0], Ipv4Addr { a: 10, b: 88, c: 0, d: 1 });
        }
        Err(_) => panic!("config parsing failed"),
    }
}

#[test]
fn test_parsing_bad_config_files() {
    // a file whose content does not parse is skipped, not a hard error
    let files = vec![file("podman_bad_config", "notanip\n")];
    parse_configs(&files, b"").expect("config parsing failed");
}

#[test]
fn test_pid_file_is_skipped() {
    let mut files = podman_files();
    files.push(file("aardvark.pid", "12345"));
    let (_, listen_ip_v4, _) = parse_configs(&files, b"").unwrap();
    assert_eq!(listen_ip_v4.len(), 1);
}

#[test]
fn test_internal_suffix_marks_network_internal() {
    let files = vec![file(
        "private%int",
        "10.90.0.1 9.9.9.9\nzzz 10.90.0.2  ctrz 8.8.8.8\n",
    )];
    let (backend, listen_ip_v4, _) = parse_configs(&files, b"").unwrap();
    // the suffix is stripped from the stored network name
    assert!(listen_ip_v4.iter().any(|e| e.network == b"private".to_vec()));
    // members of an internal network are internal
    let requester = aardvark_dns::ip::IpAddr::V4(Ipv4Addr { a: 10, b: 90, c: 0, d: 2 });
    assert!(backend.ctr_is_internal(&requester));
    // network resolvers collapse to the empty list, and container
    // resolvers are dropped
    assert_eq!(backend.get_network_scoped_resolvers(&requester), Some(vec![]));
    assert_eq!(backend.ctr_dns_entry(&requester), None);
}

#[test]
fn test_first_bind_address_missing_fails_file_parse() {
    // an empty file provides no bind address
    assert!(parse_config(b"").is_err());
    // so does one whose first line is malformed
    assert!(parse_config(b"nonsense\n").is_err());
    // and the error is the free-form message kind
    match parse_config(b"") {
        Err(AardvarkError::Message(_)) => {}
        _ => panic!("expected a message error"),
    }
}

#[test]
fn test_container_line_with_too_few_fields_fails() {
    assert!(parse_config(b"10.88.0.1\nid 10.88.0.2 name\n").is_err());
}

#[test]
fn test_well_formed_file_parses() {
    let cfg = parse_config(
        b"10.88.0.1 1.2.3.4\nid1 10.88.0.2 fdfd::2 name1,alias1 9.9.9.9\n",
    )
    .unwrap();
    assert_eq!(cfg.network_bind_ip.len(), 1);
    assert_eq!(cfg.network_dnsservers.len(), 1);
    assert_eq!(cfg.container_entry.len(), 1);
    let ctr = &cfg.container_entry[0];
    assert_eq!(ctr.id, b"id1".to_vec());
    assert_eq!(ctr.aliases, vec![b"name1".to_vec(), b"alias1".to_vec()]);
    assert!(ctr.v4.is_some());
    assert!(ctr.v6.is_some());
    assert!(ctr.dns_servers.is_some());
}

#[test]
fn test_names_and_ids_are_lowercased_on_ingest() {
    let cfg = parse_config(b"10.88.0.1\nABCDEF 10.88.0.2  NameOne,ALIAS\n").unwrap();
    let ctr = &cfg.container_entry[0];
    assert_eq!(ctr.id, b"abcdef".to_vec());
    assert_eq!(ctr.aliases, vec![b"nameone".to_vec(), b"alias".to_vec()]);
}
