use rucompart::address::{bind_candidates, IpAddress, SockAddr};

#[test]
fn v4_socket_address_keeps_ip_and_port() {
    let a = SockAddr::new(IpAddress::V4(0x7f00_0001), 1234);
    assert_eq!(a, SockAddr::V4 { ip: 0x7f00_0001, port: 1234 });
    assert_eq!(a.ip(), IpAddress::V4(0x7f00_0001));
    assert_eq!(a.port(), 1234);
}

#[test]
fn v6_socket_address_has_no_flow_and_scope() {
    let a = SockAddr::new(IpAddress::V6(1), 80);
    assert_eq!(a, SockAddr::V6 { ip: 1, port: 80, flowinfo: 0, scope_id: 0 });
    assert_eq!(a.ip(), IpAddress::V6(1));
    assert_eq!(a.port(), 80);
}

#[test]
fn bind_candidates_lists_every_address_in_order_with_port_zero() {
    let interfaces = vec![
        vec![IpAddress::V4(0x7f00_0001), IpAddress::V6(1)],
        vec![],
        vec![IpAddress::V4(0xc0a8_0002)],
    ];
    let plan = bind_candidates(&interfaces);
    assert_eq!(
        plan,
        vec![
            SockAddr::V4 { ip: 0x7f00_0001, port: 0 },
            SockAddr::V6 { ip: 1, port: 0, flowinfo: 0, scope_id: 0 },
            SockAddr::V4 { ip: 0xc0a8_0002, port: 0 },
        ]
    );
}

#[test]
fn bind_candidates_of_no_interface_is_empty() {
    assert!(bind_candidates(&vec![]).is_empty());
    assert!(bind_candidates(&vec![vec![], vec![]]).is_empty());
}
