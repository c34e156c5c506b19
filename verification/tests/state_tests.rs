use rust_network_mgr::addr::{parse_ipv4, parse_ipv6};
use rust_network_mgr::nftables::{NftCommand, NftablesManager};
use rust_network_mgr::state::{AppState, ZoneSets};
use rust_network_mgr::types::{
    AppConfig, ControlCommand, DockerEvent, InterfaceConfig, IpAddress, NetworkEvent, SystemEvent,
};

fn iface(name: &str, zone: Option<&str>) -> InterfaceConfig {
    InterfaceConfig {
        name: name.to_string(),
        dhcp: None,
        address: None,
        nftables_zone: zone.map(|z| z.to_string()),
    }
}

fn config(ifaces: Vec<InterfaceConfig>) -> AppConfig {
    AppConfig { interfaces: ifaces, socket_path: None, nftables_rules_path: None }
}

fn v4(text: &str) -> IpAddress {
    IpAddress::V4(parse_ipv4(text).expect("test literal must parse"))
}

fn v6(text: &str) -> IpAddress {
    IpAddress::V6(parse_ipv6(text).expect("test literal must parse"))
}

fn ip_update(name: &str, ips: Vec<IpAddress>) -> SystemEvent {
    SystemEvent::Network(NetworkEvent::IpUpdate { interface: name.to_string(), ips })
}

fn link_down(name: &str) -> SystemEvent {
    SystemEvent::Network(NetworkEvent::LinkChanged { name: name.to_string(), is_up: false })
}

fn zone<'a>(proj: &'a [ZoneSets], name: &str) -> &'a ZoneSets {
    proj.iter().find(|z| z.zone == name).expect("zone must be materialized")
}

/// One interface bound to `wan` gains one v4 address.
#[test]
fn single_v4_address_projects_into_wan() {
    let cfg = config(vec![iface("eth0", Some("wan"))]);
    let mgr = NftablesManager::new(cfg.interfaces.clone());
    let mut st = AppState::new(cfg);
    let out = st.apply(&ip_update("eth0", vec![v4("203.0.113.5")]));
    assert_eq!(out.delta.changed_zones, vec!["wan".to_string()]);
    let applied = mgr.apply_rules(&st.network_state);
    let w = zone(&applied.projection, "wan");
    assert_eq!(w.v4, vec![parse_ipv4("203.0.113.5").unwrap()]);
    assert!(w.v6.is_empty());
}

/// A v6 address joins; the families never mix across the two sets.
#[test]
fn families_partition_across_the_two_sets() {
    let cfg = config(vec![iface("eth0", Some("wan"))]);
    let mgr = NftablesManager::new(cfg.interfaces.clone());
    let mut st = AppState::new(cfg);
    st.apply(&ip_update("eth0", vec![v4("203.0.113.5")]));
    st.apply(&ip_update("eth0", vec![v4("203.0.113.5"), v6("2001:db8::1")]));
    let applied = mgr.apply_rules(&st.network_state);
    let w = zone(&applied.projection, "wan");
    assert_eq!(w.v4, vec![parse_ipv4("203.0.113.5").unwrap()]);
    assert_eq!(w.v6, vec![parse_ipv6("2001:db8::1").unwrap()]);
}

/// The link going away empties both of the zone's sets.
#[test]
fn link_gone_empties_both_sets() {
    let cfg = config(vec![iface("eth0", Some("wan"))]);
    let mgr = NftablesManager::new(cfg.interfaces.clone());
    let mut st = AppState::new(cfg);
    st.apply(&ip_update("eth0", vec![v4("203.0.113.5"), v6("2001:db8::1")]));
    let out = st.apply(&link_down("eth0"));
    assert_eq!(out.delta.changed_zones, vec!["wan".to_string()]);
    let applied = mgr.apply_rules(&st.network_state);
    let w = zone(&applied.projection, "wan");
    assert!(w.v4.is_empty());
    assert!(w.v6.is_empty());
}

/// The same address on two interfaces of one zone appears once.
#[test]
fn shared_address_is_deduplicated() {
    let cfg = config(vec![iface("eth0", Some("wan")), iface("eth1", Some("wan"))]);
    let mgr = NftablesManager::new(cfg.interfaces.clone());
    let mut st = AppState::new(cfg);
    st.apply(&ip_update("eth0", vec![v4("10.0.0.1")]));
    st.apply(&ip_update("eth1", vec![v4("10.0.0.1")]));
    let applied = mgr.apply_rules(&st.network_state);
    let w = zone(&applied.projection, "wan");
    assert_eq!(w.v4, vec![parse_ipv4("10.0.0.1").unwrap()]);
}

/// A reload that swaps the zone binding changes exactly the old and
/// the new zone, and the addresses move with the interface.
#[test]
fn reload_swaps_zone_binding() {
    let cfg = config(vec![iface("eth0", Some("wan")), iface("eth9", Some("lan"))]);
    let mut st = AppState::new(cfg);
    st.apply(&ip_update("eth0", vec![v4("198.51.100.7")]));
    let new_cfg = config(vec![iface("eth0", Some("lan")), iface("eth9", Some("lan"))]);
    let mgr = NftablesManager::new(new_cfg.interfaces.clone());
    let delta = st.reload(new_cfg);
    assert!(delta.full_refresh);
    let mut changed = delta.changed_zones.clone();
    changed.sort();
    assert_eq!(changed, vec!["lan".to_string(), "wan".to_string()]);
    let applied = mgr.apply_rules(&st.network_state);
    assert_eq!(zone(&applied.projection, "lan").v4, vec![parse_ipv4("198.51.100.7").unwrap()]);
    assert!(applied.projection.iter().all(|z| z.zone != "wan"));
}

/// Reloading identical content yields an empty delta.
#[test]
fn reload_identical_config_is_empty_delta() {
    let cfg = config(vec![iface("eth0", Some("wan"))]);
    let mut st = AppState::new(cfg);
    st.apply(&ip_update("eth0", vec![v4("203.0.113.5")]));
    let same = config(vec![iface("eth0", Some("wan"))]);
    let delta = st.reload(same);
    assert!(delta.is_empty());
}

/// A declared zone with no addresses is still materialized.
#[test]
fn empty_zone_is_materialized() {
    let cfg = config(vec![iface("eth0", Some("wan")), iface("eth1", Some("dmz"))]);
    let mgr = NftablesManager::new(cfg.interfaces.clone());
    let st = AppState::new(cfg);
    let applied = mgr.apply_rules(&st.network_state);
    let d = zone(&applied.projection, "dmz");
    assert!(d.v4.is_empty() && d.v6.is_empty());
    // its sets are still flushed so the kernel sees them emptied
    let flushes: Vec<&NftCommand> = applied
        .plan
        .iter()
        .filter(|c| {
            matches!(c, NftCommand::FlushSetV4 { set, .. } if set == "dmz_ips")
                || matches!(c, NftCommand::FlushSetV6 { set, .. } if set == "dmz_ipv6")
        })
        .collect();
    assert_eq!(flushes.len(), 2);
}

/// After any burst, the store holds the last reported full set.
#[test]
fn last_full_set_wins() {
    let cfg = config(vec![iface("eth0", Some("wan"))]);
    let mgr = NftablesManager::new(cfg.interfaces.clone());
    let mut st = AppState::new(cfg);
    st.apply(&ip_update("eth0", vec![v4("10.0.0.1")]));
    st.apply(&ip_update("eth0", vec![v4("10.0.0.1"), v4("10.0.0.2")]));
    st.apply(&ip_update("eth0", vec![v4("10.0.0.3")]));
    let applied = mgr.apply_rules(&st.network_state);
    assert_eq!(zone(&applied.projection, "wan").v4, vec![parse_ipv4("10.0.0.3").unwrap()]);
}

/// A zone's sets are the family-partitioned union over its members.
#[test]
fn projection_is_union_over_members() {
    let cfg = config(vec![
        iface("eth0", Some("wan")),
        iface("eth1", Some("wan")),
        iface("eth2", Some("lan")),
    ]);
    let mgr = NftablesManager::new(cfg.interfaces.clone());
    let mut st = AppState::new(cfg);
    st.apply(&ip_update("eth0", vec![v4("192.0.2.1"), v6("2001:db8::a")]));
    st.apply(&ip_update("eth1", vec![v4("192.0.2.2")]));
    st.apply(&ip_update("eth2", vec![v4("192.0.2.3")]));
    let applied = mgr.apply_rules(&st.network_state);
    let mut wan4 = zone(&applied.projection, "wan").v4.clone();
    wan4.sort();
    let mut expected =
        vec![parse_ipv4("192.0.2.1").unwrap(), parse_ipv4("192.0.2.2").unwrap()];
    expected.sort();
    assert_eq!(wan4, expected);
    assert_eq!(zone(&applied.projection, "wan").v6, vec![parse_ipv6("2001:db8::a").unwrap()]);
    assert_eq!(zone(&applied.projection, "lan").v4, vec![parse_ipv4("192.0.2.3").unwrap()]);
}

/// Removing one interface leaves other zones untouched.
#[test]
fn link_gone_leaves_other_zones_alone() {
    let cfg = config(vec![iface("eth0", Some("wan")), iface("eth1", Some("lan"))]);
    let mgr = NftablesManager::new(cfg.interfaces.clone());
    let mut st = AppState::new(cfg);
    st.apply(&ip_update("eth0", vec![v4("192.0.2.1")]));
    st.apply(&ip_update("eth1", vec![v4("192.0.2.9")]));
    let out = st.apply(&link_down("eth0"));
    assert_eq!(out.delta.changed_zones, vec!["wan".to_string()]);
    let applied = mgr.apply_rules(&st.network_state);
    assert!(zone(&applied.projection, "wan").v4.is_empty());
    assert_eq!(zone(&applied.projection, "lan").v4, vec![parse_ipv4("192.0.2.9").unwrap()]);
}

#[test]
fn docker_events_track_container_addresses() {
    let cfg = config(vec![iface("eth0", Some("wan"))]);
    let mut st = AppState::new(cfg);
    let out = st.apply(&SystemEvent::Docker(DockerEvent::ContainerStarted(
        "abc123".to_string(),
        Some(v4("172.17.0.2")),
    )));
    assert!(out.delta.is_empty());
    assert_eq!(st.container_ips.len(), 1);
    assert_eq!(st.container_ips[0].id, "abc123");
    st.apply(&SystemEvent::Docker(DockerEvent::ContainerStarted("noip".to_string(), None)));
    assert_eq!(st.container_ips.len(), 1);
    st.apply(&SystemEvent::Docker(DockerEvent::ContainerStopped("abc123".to_string())));
    assert!(st.container_ips.is_empty());
}

#[test]
fn control_and_signal_outcomes() {
    let cfg = config(vec![iface("eth0", Some("wan"))]);
    let mut st = AppState::new(cfg);
    let out = st.apply(&SystemEvent::Control(ControlCommand::Ping));
    assert_eq!(out.reply, Some("PONG".to_string()));
    assert!(!out.shutdown && !out.reload_requested);
    let out = st.apply(&SystemEvent::Control(ControlCommand::Reload));
    assert!(out.reload_requested && out.reply.is_none());
    let out = st.apply(&SystemEvent::Control(ControlCommand::Shutdown));
    assert!(out.shutdown);
    let out = st.apply(&SystemEvent::Signal(15));
    assert!(out.shutdown);
}

#[test]
fn status_report_lists_interfaces_and_containers() {
    let cfg = config(vec![iface("eth0", Some("wan"))]);
    let mut st = AppState::new(cfg);
    st.apply(&ip_update("eth0", vec![v4("10.0.0.1"), v6("2001:db8::1")]));
    st.apply(&SystemEvent::Docker(DockerEvent::ContainerStarted(
        "abc123".to_string(),
        Some(v4("172.17.0.2")),
    )));
    let out = st.apply(&SystemEvent::Control(ControlCommand::Status));
    let report = out.reply.expect("status must reply");
    assert_eq!(
        report,
        "Current Status:\nInterfaces:\n  eth0: [10.0.0.1, 2001:db8:0:0:0:0:0:1]\nTracked Containers:\n  abc123: 172.17.0.2"
    );
}

#[test]
fn status_report_empty_state() {
    let cfg = config(vec![iface("eth0", Some("wan"))]);
    let st = AppState::new(cfg);
    assert_eq!(
        st.status_report(),
        "Current Status:\nInterfaces:\n  (None)\nTracked Containers:\n  (None)"
    );
}
