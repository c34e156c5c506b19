use rust_network_mgr::addr::parse_ipv4;
use rust_network_mgr::network::NetworkMonitor;
use rust_network_mgr::types::{IpAddress, NetworkEvent};

fn a(text: &str) -> IpAddress {
    IpAddress::V4(parse_ipv4(text).expect("test literal must parse"))
}

#[test]
fn new_link_is_reported_once() {
    let mut mon = NetworkMonitor::new();
    let evs = mon.handle_link_change(1, Some("eth0".to_string()), true, true);
    assert_eq!(evs.len(), 1);
    assert!(
        matches!(&evs[0], NetworkEvent::LinkChanged { name, is_up } if name == "eth0" && *is_up)
    );
    // the same message again changes nothing
    let evs = mon.handle_link_change(1, Some("eth0".to_string()), true, true);
    assert!(evs.is_empty());
}

#[test]
fn up_flag_change_is_reported() {
    let mut mon = NetworkMonitor::new();
    mon.handle_link_change(1, Some("eth0".to_string()), true, true);
    let evs = mon.handle_link_change(1, Some("eth0".to_string()), false, true);
    assert_eq!(evs.len(), 1);
    assert!(
        matches!(&evs[0], NetworkEvent::LinkChanged { name, is_up } if name == "eth0" && !*is_up)
    );
}

#[test]
fn address_event_carries_full_set_and_suppresses_duplicates() {
    let mut mon = NetworkMonitor::new();
    mon.handle_link_change(1, Some("eth0".to_string()), true, true);
    let ev = mon.handle_address_change(1, Some(a("10.0.0.1")), true);
    match ev {
        Some(NetworkEvent::IpUpdate { interface, ips }) => {
            assert_eq!(interface, "eth0");
            assert_eq!(ips, vec![a("10.0.0.1")]);
        }
        other => panic!("expected IpUpdate, got {:?}", other),
    }
    // a duplicate add is suppressed
    assert!(mon.handle_address_change(1, Some(a("10.0.0.1")), true).is_none());
    // a second address extends the reported set
    match mon.handle_address_change(1, Some(a("10.0.0.2")), true) {
        Some(NetworkEvent::IpUpdate { ips, .. }) => {
            assert_eq!(ips, vec![a("10.0.0.1"), a("10.0.0.2")]);
        }
        other => panic!("expected IpUpdate, got {:?}", other),
    }
    // removal reports the remaining set
    match mon.handle_address_change(1, Some(a("10.0.0.1")), false) {
        Some(NetworkEvent::IpUpdate { ips, .. }) => {
            assert_eq!(ips, vec![a("10.0.0.2")]);
        }
        other => panic!("expected IpUpdate, got {:?}", other),
    }
    // removing an address that is not held is suppressed
    assert!(mon.handle_address_change(1, Some(a("10.9.9.9")), false).is_none());
}

#[test]
fn address_events_for_unknown_index_are_dropped() {
    let mut mon = NetworkMonitor::new();
    assert!(mon.handle_address_change(7, Some(a("10.0.0.1")), true).is_none());
}

#[test]
fn link_deletion_resolves_name_and_empties_addresses() {
    let mut mon = NetworkMonitor::new();
    mon.handle_link_change(1, Some("eth0".to_string()), true, true);
    mon.handle_address_change(1, Some(a("10.0.0.1")), true);
    let evs = mon.handle_link_change(1, None, false, false);
    assert_eq!(evs.len(), 2);
    match &evs[0] {
        NetworkEvent::IpUpdate { interface, ips } => {
            assert_eq!(interface, "eth0");
            assert!(ips.is_empty());
        }
        other => panic!("expected IpUpdate, got {:?}", other),
    }
    assert!(
        matches!(&evs[1], NetworkEvent::LinkChanged { name, is_up } if name == "eth0" && !*is_up)
    );
    // deleting an unknown index is silent
    let evs = mon.handle_link_change(9, None, false, false);
    assert!(evs.is_empty());
}

#[test]
fn rename_reemits_addresses_under_the_new_name() {
    let mut mon = NetworkMonitor::new();
    mon.handle_link_change(1, Some("eth0".to_string()), true, true);
    mon.handle_address_change(1, Some(a("10.0.0.1")), true);
    let evs = mon.handle_link_change(1, Some("net0".to_string()), true, true);
    assert_eq!(evs.len(), 3);
    assert!(
        matches!(&evs[0], NetworkEvent::LinkChanged { name, is_up } if name == "eth0" && !*is_up)
    );
    match &evs[1] {
        NetworkEvent::IpUpdate { interface, ips } => {
            assert_eq!(interface, "net0");
            assert_eq!(ips, &vec![a("10.0.0.1")]);
        }
        other => panic!("expected IpUpdate, got {:?}", other),
    }
    assert!(
        matches!(&evs[2], NetworkEvent::LinkChanged { name, is_up } if name == "net0" && *is_up)
    );
}
