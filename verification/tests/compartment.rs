use rucompart::address::SockAddr;
use rucompart::compartment::{
    connect_target, fork_role, standalone_address_variable, CompartmentMode, ConnectTarget,
    ForkRole,
};

#[test]
fn fork_role_child_only_on_zero() {
    assert_eq!(fork_role(0), ForkRole::Child);
    assert_eq!(fork_role(4242), ForkRole::Parent);
    assert_eq!(fork_role(-1), ForkRole::Parent);
}

#[test]
fn no_address_means_fork() {
    assert!(matches!(connect_target(None, None), ConnectTarget::Fork));
    let sock = SockAddr::V4 { ip: 0x7f00_0001, port: 1234 };
    assert!(matches!(connect_target(None, Some(sock)), ConnectTarget::Fork));
}

#[test]
fn socket_address_means_tcp() {
    let sock = SockAddr::V4 { ip: 0x7f00_0001, port: 1234 };
    match connect_target(Some("127.0.0.1:1234".to_string()), Some(sock)) {
        ConnectTarget::Tcp(a) => assert_eq!(a, sock),
        other => panic!("expected TCP, got {other:?}"),
    }
}

#[test]
fn other_address_means_unix_socket() {
    match connect_target(Some("/run/compartment.sock".to_string()), None) {
        ConnectTarget::Unix(p) => assert_eq!(p, "/run/compartment.sock"),
        other => panic!("expected a Unix socket, got {other:?}"),
    }
}

#[test]
fn standalone_variable_name() {
    assert_eq!(
        standalone_address_variable("rucompart", "SOME_COMPARTMENT"),
        "RUCOMPART_SOME_COMPARTMENT_ADDR"
    );
    assert_eq!(standalone_address_variable("ru-Compart9", "x"), "RU-COMPART9_x_ADDR");
    assert_eq!(standalone_address_variable("", ""), "__ADDR");
}

#[test]
fn compartment_modes_exist() {
    let modes = [CompartmentMode::Fork, CompartmentMode::StandaloneSock];
    assert!(matches!(modes[0], CompartmentMode::Fork));
    assert!(matches!(modes[1], CompartmentMode::StandaloneSock));
}
