use mullvad_masque_proxy::target::{
    connect_request_path, get_target_socketaddr, parse_port, unspecified_addr, AllowedIps,
    IpAddress, SocketAddress, MASQUE_WELL_KNOWN_PATH,
};

#[test]
fn test_get_good_slashy_ocketaddr() {
    let addr = "192.168.1.1";
    let port: u16 = 7979;
    let expected_addr = SocketAddress { ip: IpAddress::v4(192, 168, 1, 1), port };
    let good_path = format!("{MASQUE_WELL_KNOWN_PATH}///{addr}/{port}////");

    assert_eq!(get_target_socketaddr(&good_path).unwrap(), expected_addr)
}

#[test]
fn test_get_bad_socketaddr() {
    let addr = "192.168.1.1";
    let port: u16 = 7979;
    let good_path = format!("{MASQUE_WELL_KNOWN_PATH}{addr}adsfasd/asdfasdf/{port}");

    assert_eq!(get_target_socketaddr(&good_path), None)
}

#[test]
fn plain_path_parses() {
    assert_eq!(
        get_target_socketaddr("/.well-known/masque/udp/192.168.1.1/7979/"),
        Some(SocketAddress { ip: IpAddress::V4(0xc0a8_0101), port: 7979 })
    );
    assert_eq!(
        get_target_socketaddr("/.well-known/masque/udp/10.0.0.2/53"),
        Some(SocketAddress { ip: IpAddress::v4(10, 0, 0, 2), port: 53 })
    );
}

#[test]
fn ipv6_path_parses() {
    assert_eq!(
        get_target_socketaddr("/.well-known/masque/udp/::1/443/"),
        Some(SocketAddress { ip: IpAddress::V6(1), port: 443 })
    );
}

#[test]
fn paths_that_name_no_target() {
    assert_eq!(get_target_socketaddr("/.well-known/masque/tcp/192.168.1.1/7979/"), None);
    assert_eq!(get_target_socketaddr("/.well-known/masque/udp/192.168.1.1"), None);
    assert_eq!(get_target_socketaddr("/.well-known/masque/udp/192.168.1.1/"), None);
    assert_eq!(get_target_socketaddr("/.well-known/masque/udp/192.168.1.1/70000/"), None);
    assert_eq!(get_target_socketaddr("/.well-known/masque/udp/192.168.1.1/79/x"), None);
    assert_eq!(get_target_socketaddr(""), None);
}

#[test]
fn ports() {
    assert_eq!(parse_port("0"), Some(0));
    assert_eq!(parse_port("+80"), Some(80));
    assert_eq!(parse_port("65535"), Some(65535));
    assert_eq!(parse_port("0065535"), Some(65535));
    assert_eq!(parse_port("65536"), None);
    assert_eq!(parse_port("999999"), None);
    assert_eq!(parse_port(""), None);
    assert_eq!(parse_port("+"), None);
    assert_eq!(parse_port("-1"), None);
    assert_eq!(parse_port(" 1"), None);
}

#[test]
fn request_path_names_target() {
    let target = SocketAddress { ip: IpAddress::v4(192, 168, 1, 1), port: 7979 };
    assert_eq!(connect_request_path(&target), "/.well-known/masque/udp/192.168.1.1/7979/");
    let target6 = SocketAddress { ip: IpAddress::V6(1), port: 53 };
    assert_eq!(connect_request_path(&target6), "/.well-known/masque/udp/::1/53/");
    assert_eq!(get_target_socketaddr(&connect_request_path(&target)), Some(target));
}

#[test]
fn unspecified_keeps_family() {
    assert_eq!(unspecified_addr(IpAddress::v4(1, 2, 3, 4)), IpAddress::V4(0));
    assert_eq!(unspecified_addr(IpAddress::V6(77)), IpAddress::V6(0));
}

#[test]
fn allowed_ips() {
    let any = AllowedIps { hosts: vec![] };
    assert!(any.ip_allowed(IpAddress::v4(8, 8, 8, 8)));
    let some = AllowedIps { hosts: vec![IpAddress::v4(10, 0, 0, 1), IpAddress::V6(1)] };
    assert!(some.ip_allowed(IpAddress::V6(1)));
    assert!(some.ip_allowed(IpAddress::v4(10, 0, 0, 1)));
    assert!(!some.ip_allowed(IpAddress::v4(10, 0, 0, 2)));
}
