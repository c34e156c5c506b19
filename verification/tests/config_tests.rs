use rust_network_mgr::config::{
    choose_config_path, get_pkg_default_config_path, load_initial_config, validate_config,
};
use rust_network_mgr::types::{AppConfig, AppError, InterfaceConfig};

fn iface(name: &str, zone: Option<&str>) -> InterfaceConfig {
    InterfaceConfig {
        name: name.to_string(),
        dhcp: None,
        address: None,
        nftables_zone: zone.map(|z| z.to_string()),
    }
}

#[test]
fn test_validate_empty_interfaces() {
    let config = AppConfig { interfaces: vec![], socket_path: None, nftables_rules_path: None };
    let result = validate_config(&config);
    assert!(result.is_err());
    match result {
        Err(AppError::ConfigValidation(msg)) => {
            assert!(msg.contains("at least one interface"));
        }
        _ => panic!("Expected ConfigValidation error, got {:?}", result),
    }
}

#[test]
fn validate_rejects_empty_name() {
    let config = AppConfig {
        interfaces: vec![iface("eth0", Some("wan")), iface("", None)],
        socket_path: None,
        nftables_rules_path: None,
    };
    match validate_config(&config) {
        Err(AppError::ConfigValidation(msg)) => {
            assert_eq!(msg, "Interface name cannot be empty");
        }
        other => panic!("expected ConfigValidation, got {:?}", other),
    }
}

#[test]
fn validate_accepts_one_interface() {
    let config = AppConfig {
        interfaces: vec![iface("eth0", Some("wan"))],
        socket_path: Some("/tmp/test.sock".to_string()),
        nftables_rules_path: None,
    };
    assert!(validate_config(&config).is_ok());
}

#[test]
fn load_initial_config_returns_valid_config() {
    let config = AppConfig {
        interfaces: vec![iface("eth0", Some("wan")), iface("eth1", Some("lan"))],
        socket_path: Some("/tmp/test.sock".to_string()),
        nftables_rules_path: None,
    };
    let loaded = load_initial_config(config).expect("valid config must load");
    assert_eq!(loaded.interfaces.len(), 2);
    assert_eq!(loaded.interfaces[0].name, "eth0");
    assert_eq!(loaded.interfaces[1].nftables_zone, Some("lan".to_string()));
    assert_eq!(loaded.socket_path, Some("/tmp/test.sock".to_string()));
}

#[test]
fn load_initial_config_rejects_invalid() {
    let config = AppConfig { interfaces: vec![], socket_path: None, nftables_rules_path: None };
    assert!(load_initial_config(config).is_err());
}

#[test]
fn config_path_override_wins_when_present() {
    let r = choose_config_path(&Some("/etc/custom.yaml".to_string()), true, true, true, &None);
    assert_eq!(r.unwrap(), "/etc/custom.yaml");
}

#[test]
fn config_path_missing_override_is_fatal() {
    let r = choose_config_path(&Some("/etc/custom.yaml".to_string()), false, true, true, &None);
    match r {
        Err(AppError::ConfigIo(msg)) => {
            assert_eq!(msg, "Specified config file not found: /etc/custom.yaml");
        }
        other => panic!("expected ConfigIo, got {:?}", other),
    }
}

#[test]
fn config_path_fallback_order() {
    let r = choose_config_path(&None, false, true, true, &None);
    assert_eq!(r.unwrap(), "/etc/rust-network-manager/config.yaml");
    let r = choose_config_path(&None, false, false, true, &None);
    assert_eq!(r.unwrap(), "pkg-files/config/default.yaml");
    let user = Some("/home/u/.config/config.yaml".to_string());
    let r = choose_config_path(&None, false, false, false, &user);
    assert_eq!(r.unwrap(), "/home/u/.config/config.yaml");
    let r = choose_config_path(&None, false, false, false, &None);
    assert!(r.is_err());
}

#[test]
fn pkg_default_path_is_stable() {
    assert_eq!(get_pkg_default_config_path(), "pkg-files/config/default.yaml");
}
