use nftables::schema::{NfCmd, NfListObject, NfObject, SetType, SetTypeValue};
use nftables::types::NfFamily;
use rust_network_mgr::addr::parse_ipv4;
use rust_network_mgr::nftables::{plan_batch, NftCommand, NftablesManager};
use rust_network_mgr::state::NetworkState;
use rust_network_mgr::types::{InterfaceConfig, IpAddress, NetworkEvent};
use rust_network_mgr::state::AppState;
use rust_network_mgr::types::{AppConfig, SystemEvent};

fn iface(name: &str, zone: Option<&str>) -> InterfaceConfig {
    InterfaceConfig {
        name: name.to_string(),
        dhcp: None,
        address: None,
        nftables_zone: zone.map(|z| z.to_string()),
    }
}

#[test]
fn structure_plan_creates_table_and_zone_sets_once() {
    let mgr = NftablesManager::new(vec![
        iface("eth0", Some("wan")),
        iface("eth1", Some("lan")),
        iface("eth2", Some("wan")),
        iface("eth3", None),
    ]);
    let plan = mgr.load_rules();
    assert_eq!(plan.len(), 5);
    assert!(matches!(&plan[0], NftCommand::CreateTable { table } if table == "filter"));
    assert!(matches!(&plan[1], NftCommand::CreateSetV4 { set, .. } if set == "wan_ips"));
    assert!(matches!(&plan[2], NftCommand::CreateSetV6 { set, .. } if set == "wan_ipv6"));
    assert!(matches!(&plan[3], NftCommand::CreateSetV4 { set, .. } if set == "lan_ips"));
    assert!(matches!(&plan[4], NftCommand::CreateSetV6 { set, .. } if set == "lan_ipv6"));
}

#[test]
fn apply_plan_flushes_every_set_before_any_add() {
    let cfg = AppConfig {
        interfaces: vec![iface("eth0", Some("wan")), iface("eth1", Some("lan"))],
        socket_path: None,
        nftables_rules_path: None,
    };
    let mgr = NftablesManager::new(cfg.interfaces.clone());
    let mut st = AppState::new(cfg);
    st.apply(&SystemEvent::Network(NetworkEvent::IpUpdate {
        interface: "eth0".to_string(),
        ips: vec![IpAddress::V4(parse_ipv4("203.0.113.5").unwrap())],
    }));
    let applied = mgr.apply_rules(&st.network_state);
    let first_add = applied
        .plan
        .iter()
        .position(|c| matches!(c, NftCommand::AddElement { .. }))
        .expect("one element is added");
    let last_flush = applied
        .plan
        .iter()
        .rposition(|c| matches!(c, NftCommand::FlushSetV4 { .. } | NftCommand::FlushSetV6 { .. }))
        .expect("sets are flushed");
    assert!(last_flush < first_add, "every flush precedes every add");
    assert!(matches!(
        &applied.plan[first_add],
        NftCommand::AddElement { set, element, .. } if set == "wan_ips" && element == "203.0.113.5"
    ));
    // four flushes: both families for both zones
    let flushes = applied
        .plan
        .iter()
        .filter(|c| matches!(c, NftCommand::FlushSetV4 { .. } | NftCommand::FlushSetV6 { .. }))
        .count();
    assert_eq!(flushes, 4);
}

#[test]
fn empty_projection_still_flushes_declared_zones() {
    let mgr = NftablesManager::new(vec![iface("eth0", Some("wan"))]);
    let st = NetworkState::new();
    let applied = mgr.apply_rules(&st);
    assert_eq!(applied.plan.len(), 2);
    assert!(matches!(&applied.plan[0], NftCommand::FlushSetV4 { set, .. } if set == "wan_ips"));
    assert!(matches!(&applied.plan[1], NftCommand::FlushSetV6 { set, .. } if set == "wan_ipv6"));
}

/// Loads a plan into a real batch of the `nftables` crate and checks the
/// submitted objects, step for step.
#[test]
fn batch_holds_the_planned_objects() {
    let mgr = NftablesManager::new(vec![iface("eth0", Some("wan"))]);
    let plan = mgr.load_rules();
    let batch = plan_batch(&plan);
    let ruleset = batch.to_nftables();
    let objects: &[NfObject] = &ruleset.objects;
    assert_eq!(objects.len(), 3);
    match &objects[0] {
        NfObject::CmdObject(NfCmd::Add(NfListObject::Table(t))) => {
            assert_eq!(t.family, NfFamily::INet);
            assert_eq!(t.name.as_ref(), "filter");
        }
        other => panic!("expected add-table, got {:?}", other),
    }
    match &objects[1] {
        NfObject::CmdObject(NfCmd::Add(NfListObject::Set(s))) => {
            assert_eq!(s.family, NfFamily::INet);
            assert_eq!(s.table.as_ref(), "filter");
            assert_eq!(s.name.as_ref(), "wan_ips");
            assert!(matches!(s.set_type, SetTypeValue::Single(SetType::Ipv4Addr)));
            assert!(s.flags.is_some());
        }
        other => panic!("expected add-set, got {:?}", other),
    }
    match &objects[2] {
        NfObject::CmdObject(NfCmd::Add(NfListObject::Set(s))) => {
            assert_eq!(s.name.as_ref(), "wan_ipv6");
            assert!(matches!(s.set_type, SetTypeValue::Single(SetType::Ipv6Addr)));
        }
        other => panic!("expected add-set, got {:?}", other),
    }
}

#[test]
fn batch_holds_flushes_and_elements() {
    let cfg = AppConfig {
        interfaces: vec![iface("eth0", Some("wan"))],
        socket_path: None,
        nftables_rules_path: None,
    };
    let mgr = NftablesManager::new(cfg.interfaces.clone());
    let mut st = AppState::new(cfg);
    st.apply(&SystemEvent::Network(NetworkEvent::IpUpdate {
        interface: "eth0".to_string(),
        ips: vec![IpAddress::V4(parse_ipv4("203.0.113.5").unwrap())],
    }));
    let applied = mgr.apply_rules(&st.network_state);
    let batch = plan_batch(&applied.plan);
    let ruleset = batch.to_nftables();
    let objects: &[NfObject] = &ruleset.objects;
    assert_eq!(objects.len(), 3);
    match &objects[0] {
        NfObject::CmdObject(NfCmd::Flush(nftables::schema::FlushObject::Set(s))) => {
            assert_eq!(s.name.as_ref(), "wan_ips");
        }
        other => panic!("expected flush, got {:?}", other),
    }
    match &objects[1] {
        NfObject::CmdObject(NfCmd::Flush(nftables::schema::FlushObject::Set(s))) => {
            assert_eq!(s.name.as_ref(), "wan_ipv6");
        }
        other => panic!("expected flush, got {:?}", other),
    }
    match &objects[2] {
        NfObject::CmdObject(NfCmd::Add(NfListObject::Element(e))) => {
            assert_eq!(e.table.as_ref(), "filter");
            assert_eq!(e.name.as_ref(), "wan_ips");
            assert_eq!(e.elem.len(), 1);
            match &e.elem[0] {
                nftables::expr::Expression::String(s) => assert_eq!(s.as_ref(), "203.0.113.5"),
                other => panic!("expected string element, got {:?}", other),
            }
        }
        other => panic!("expected add-element, got {:?}", other),
    }
}
