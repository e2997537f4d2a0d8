use whitenoise_client::address::{parse_bootstrap_address, split_bootstrap_address, BootstrapTarget};
use whitenoise_client::base58::decode_base58;
use whitenoise_client::discovery::{SessionDiscovery, SessionEntry};
use whitenoise_client::error::ClientError;
use whitenoise_client::outcome::{decode_peer_ids, dial_outcome, registration_outcome, MAIN_NET_PEER_CAP};

fn entry(id: &str, established: bool) -> SessionEntry {
    SessionEntry { id: id.to_string(), established }
}

#[test]
fn it_works() {
    assert_eq!(2 + 2, 4);
}

#[test]
fn bootstrap_address_splits_at_peer_segment() {
    let target = parse_bootstrap_address("/ip4/127.0.0.1/tcp/4001/p2p/QmAbC123").unwrap();
    assert_eq!(target.address, b"/ip4/127.0.0.1/tcp/4001".to_vec());
    assert_eq!(target.peer_id, bs58::decode("QmAbC123").into_vec().unwrap());
    assert_ne!(target.peer_id, b"QmAbC123".to_vec());
}

#[test]
fn bootstrap_address_with_p2p_in_host_name() {
    let target = parse_bootstrap_address("/dns4/p2p.example.org/tcp/7000/p2p/2g").unwrap();
    assert_eq!(
        target,
        BootstrapTarget { address: b"/dns4/p2p.example.org/tcp/7000".to_vec(), peer_id: vec![0x61] }
    );
}

#[test]
fn bootstrap_address_without_peer_segment_is_rejected() {
    assert_eq!(parse_bootstrap_address("/ip4/127.0.0.1/tcp/4001"), Err(ClientError::AddressParse));
    assert_eq!(parse_bootstrap_address("/ip4/127.0.0.1/tcp/4001/p2p/"), Err(ClientError::AddressParse));
    assert_eq!(parse_bootstrap_address("/p2p/QmAbC123"), Err(ClientError::AddressParse));
    assert_eq!(parse_bootstrap_address(""), Err(ClientError::AddressParse));
    assert_eq!(parse_bootstrap_address("QmAbC123"), Err(ClientError::AddressParse));
}

#[test]
fn bootstrap_address_with_undecodable_peer_is_rejected() {
    assert_eq!(parse_bootstrap_address("/ip4/1.2.3.4/tcp/1/p2p/Qm0OIl"), Err(ClientError::IdentityDecode));
}

#[test]
fn split_keeps_peer_text() {
    let (address, peer) = split_bootstrap_address(b"/ip4/10.0.0.1/tcp/5/p2p/abc").unwrap();
    assert_eq!(address, b"/ip4/10.0.0.1/tcp/5".to_vec());
    assert_eq!(peer, b"abc".to_vec());
}

#[test]
fn base58_decodes_bytes() {
    assert_eq!(decode_base58(b"2g"), Some(vec![0x61]));
    assert_eq!(decode_base58(b""), Some(vec![]));
    assert_eq!(decode_base58(b"11"), Some(vec![0, 0]));
    assert_eq!(decode_base58(b"0"), None);
}

#[test]
fn empty_registry_announces_nothing() {
    let mut d = SessionDiscovery::new();
    assert_eq!(d.poll_cycle(&vec![]), None);
    assert_eq!(d.announced_count(), 0);
}

#[test]
fn pending_session_is_not_announced() {
    let mut d = SessionDiscovery::new();
    let snap = vec![entry("s1", false)];
    assert_eq!(d.poll_cycle(&snap), None);
    assert!(!d.is_announced(&"s1".to_string()));
    let snap = vec![entry("s1", true)];
    assert_eq!(d.poll_cycle(&snap), Some("s1".to_string()));
    assert_eq!(d.poll_cycle(&snap), None);
    assert_eq!(d.announced_count(), 1);
}

#[test]
fn first_unannounced_pending_entry_blocks_the_cycle() {
    let mut d = SessionDiscovery::new();
    let snap = vec![entry("a", false), entry("b", true)];
    assert_eq!(d.select_announcement(&snap), None);
    assert_eq!(d.poll_cycle(&snap), None);
}

#[test]
fn k_sessions_announced_in_k_cycles_in_order() {
    let mut d = SessionDiscovery::new();
    let snap = vec![entry("a", true), entry("b", true), entry("c", true)];
    assert_eq!(d.poll_cycle(&snap), Some("a".to_string()));
    assert_eq!(d.poll_cycle(&snap), Some("b".to_string()));
    assert_eq!(d.poll_cycle(&snap), Some("c".to_string()));
    assert_eq!(d.poll_cycle(&snap), None);
    assert_eq!(d.announced_count(), 3);
}

#[test]
fn each_session_announced_once_over_changing_registry() {
    let mut d = SessionDiscovery::new();
    let mut seen: Vec<String> = Vec::new();
    let snaps = vec![
        vec![entry("x", false)],
        vec![entry("x", true)],
        vec![entry("x", true), entry("y", false)],
        vec![entry("x", true), entry("y", true)],
        vec![entry("y", true), entry("z", true)],
        vec![entry("y", true), entry("z", true)],
    ];
    for snap in &snaps {
        if let Some(id) = d.poll_cycle(snap) {
            assert!(!seen.contains(&id));
            seen.push(id);
        }
    }
    assert_eq!(seen, vec!["x".to_string(), "y".to_string(), "z".to_string()]);
}

#[test]
fn disconnected_session_is_not_redelivered() {
    let mut d = SessionDiscovery::new();
    assert_eq!(d.poll_cycle(&vec![entry("s", true)]), Some("s".to_string()));
    assert_eq!(d.poll_cycle(&vec![]), None);
    assert_eq!(d.poll_cycle(&vec![entry("s", true)]), None);
    assert!(d.is_announced(&"s".to_string()));
}

#[test]
fn select_then_record() {
    let mut d = SessionDiscovery::new();
    let snap = vec![entry("a", true), entry("b", true)];
    assert_eq!(d.select_announcement(&snap), Some(0));
    d.record_announced("a".to_string());
    assert_eq!(d.select_announcement(&snap), Some(1));
}

#[test]
fn dial_failure_is_typed() {
    assert_eq!(dial_outcome(String::new()), Err(ClientError::Dial));
    assert_eq!(dial_outcome("sess-1".to_string()), Ok("sess-1".to_string()));
}

#[test]
fn registration_outcomes() {
    assert_eq!(registration_outcome(true), Ok(()));
    assert_eq!(registration_outcome(false), Err(ClientError::Registration));
}

#[test]
fn peer_ids_decode_in_order() {
    let ids = vec!["2g".to_string(), "11".to_string()];
    assert_eq!(decode_peer_ids(&ids), Ok(vec![vec![0x61], vec![0, 0]]));
    let bad = vec!["2g".to_string(), "l".to_string()];
    assert_eq!(decode_peer_ids(&bad), Err(ClientError::IdentityDecode));
    assert_eq!(MAIN_NET_PEER_CAP, 10);
}
