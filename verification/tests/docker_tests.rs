use rust_network_mgr::docker::{classify_container_event, resolve_primary_address, ContainerLifecycle};
use rust_network_mgr::types::IpAddress;

#[test]
fn start_stop_and_die_are_classified() {
    match classify_container_event(true, "start", Some(Some("c1".to_string()))) {
        Some(ContainerLifecycle::Started(id)) => assert_eq!(id, "c1"),
        other => panic!("expected Started, got {:?}", other),
    }
    match classify_container_event(true, "stop", Some(Some("c2".to_string()))) {
        Some(ContainerLifecycle::Stopped(id)) => assert_eq!(id, "c2"),
        other => panic!("expected Stopped, got {:?}", other),
    }
    match classify_container_event(true, "die", Some(Some("c3".to_string()))) {
        Some(ContainerLifecycle::Stopped(id)) => assert_eq!(id, "c3"),
        other => panic!("expected Stopped, got {:?}", other),
    }
}

#[test]
fn missing_actor_id_uses_placeholder() {
    match classify_container_event(true, "start", Some(None)) {
        Some(ContainerLifecycle::Started(id)) => assert_eq!(id, "Unknown"),
        other => panic!("expected Started, got {:?}", other),
    }
}

#[test]
fn irrelevant_events_are_ignored() {
    assert!(classify_container_event(false, "start", Some(Some("c".to_string()))).is_none());
    assert!(classify_container_event(true, "pause", Some(Some("c".to_string()))).is_none());
    assert!(classify_container_event(true, "start", None).is_none());
}

#[test]
fn default_network_address_wins() {
    let r = resolve_primary_address(
        &Some("172.17.0.2".to_string()),
        &vec!["10.1.0.4".to_string()],
    );
    assert_eq!(r, Some(IpAddress::V4((172u32 << 24) | (17 << 16) | 2)));
}

#[test]
fn first_nonempty_network_address_is_used() {
    let r = resolve_primary_address(
        &Some("".to_string()),
        &vec!["".to_string(), "10.1.0.4".to_string(), "10.1.0.5".to_string()],
    );
    assert_eq!(r, Some(IpAddress::V4((10u32 << 24) | (1 << 16) | 4)));
}

#[test]
fn absent_when_nothing_is_usable() {
    assert_eq!(resolve_primary_address(&None, &vec![]), None);
    assert_eq!(resolve_primary_address(&Some("".to_string()), &vec!["".to_string()]), None);
}

#[test]
fn unparseable_address_is_reported_absent() {
    assert_eq!(
        resolve_primary_address(&Some("not-an-ip".to_string()), &vec![]),
        None
    );
}

#[test]
fn v6_container_address_parses() {
    let r = resolve_primary_address(&Some("2001:db8::7".to_string()), &vec![]);
    assert_eq!(r, Some(IpAddress::V6((0x2001u128 << 112) | (0x0db8u128 << 96) | 7)));
}
