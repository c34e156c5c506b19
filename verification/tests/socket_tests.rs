use rust_network_mgr::socket::{
    choose_socket_path, command_ack, parse_command, reply_line, unknown_response,
};
use rust_network_mgr::types::ControlCommand;

/// The wire exchanges for ping and reload.
#[test]
fn ping_and_reload_wire_exchange() {
    let cmd = parse_command("ping\n").expect("ping must parse");
    assert_eq!(cmd, ControlCommand::Ping);
    assert!(command_ack(&cmd).is_none());
    assert_eq!(reply_line("PONG"), "PONG\n");

    let cmd = parse_command("reload\n").expect("reload must parse");
    assert_eq!(cmd, ControlCommand::Reload);
    assert_eq!(command_ack(&cmd), Some("OK: Reload command sent\n".to_string()));
}

#[test]
fn all_commands_parse_with_surrounding_whitespace() {
    assert_eq!(parse_command("reload"), Some(ControlCommand::Reload));
    assert_eq!(parse_command("  status \r\n"), Some(ControlCommand::Status));
    assert_eq!(parse_command("\tping\t"), Some(ControlCommand::Ping));
    assert_eq!(parse_command("shutdown\n"), Some(ControlCommand::Shutdown));
}

#[test]
fn unknown_lines_get_the_error_response() {
    assert_eq!(parse_command("restart\n"), None);
    assert_eq!(parse_command(""), None);
    assert_eq!(parse_command("ping pong"), None);
    assert_eq!(parse_command("PING"), None);
    assert_eq!(unknown_response(), "ERROR: Unknown command\n");
}

#[test]
fn shutdown_ack_text() {
    assert_eq!(
        command_ack(&ControlCommand::Shutdown),
        Some("OK: Shutdown command sent\n".to_string())
    );
    assert!(command_ack(&ControlCommand::Status).is_none());
}

#[test]
fn socket_path_resolution_order() {
    let explicit = Some("/var/run/custom.sock".to_string());
    assert_eq!(choose_socket_path(&explicit, true, &None), "/var/run/custom.sock");
    assert_eq!(
        choose_socket_path(&None, true, &None),
        "/run/rust-network-manager/rust-network-manager.sock"
    );
    let runtime = Some("/run/user/1000".to_string());
    assert_eq!(
        choose_socket_path(&None, false, &runtime),
        "/run/user/1000/rust-network-manager.sock"
    );
    assert_eq!(choose_socket_path(&None, false, &None), "/tmp/rust-network-manager.sock");
}
