use mullvad_masque_proxy::server::{
    authorize_request, negotiation_status, RequestDecision, ServerTunnel, STATUS_BAD_GATEWAY,
    STATUS_BAD_REQUEST, STATUS_OK,
};
use mullvad_masque_proxy::target::{AllowedIps, IpAddress, SocketAddress};

const PATH: &str = "/.well-known/masque/udp/192.168.1.1/7979/";

fn target() -> SocketAddress {
    SocketAddress { ip: IpAddress::v4(192, 168, 1, 1), port: 7979 }
}

#[test]
fn disallowed_target_is_rejected() {
    let allowed = AllowedIps { hosts: vec![IpAddress::v4(10, 0, 0, 1)] };
    assert_eq!(authorize_request(PATH, &allowed), RequestDecision::Reject(400));
    assert_eq!(STATUS_BAD_REQUEST, 400);
}

#[test]
fn allowed_target_proceeds() {
    let allowed = AllowedIps { hosts: vec![IpAddress::v4(10, 0, 0, 1), IpAddress::v4(192, 168, 1, 1)] };
    assert_eq!(authorize_request(PATH, &allowed), RequestDecision::Proceed(target()));
}

#[test]
fn empty_allowed_set_accepts_any() {
    let allowed = AllowedIps { hosts: vec![] };
    assert_eq!(authorize_request(PATH, &allowed), RequestDecision::Proceed(target()));
}

#[test]
fn malformed_path_is_ignored() {
    let allowed = AllowedIps { hosts: vec![] };
    assert_eq!(authorize_request("/.well-known/masque/udp/nowhere/1/", &allowed), RequestDecision::Ignore);
}

#[test]
fn negotiation_statuses() {
    assert_eq!(negotiation_status(true), STATUS_OK);
    assert_eq!(negotiation_status(false), STATUS_BAD_GATEWAY);
    assert_eq!(STATUS_OK, 200);
    assert_eq!(STATUS_BAD_GATEWAY, 502);
}

#[test]
fn client_payload_forwarded_unchanged() {
    let mut tunnel = ServerTunnel::new(0, target());
    assert_eq!(tunnel.handle_client_datagram(0, &[0, 1, 2, 3], 0), Some(vec![1, 2, 3]));
    assert_eq!(tunnel.handle_client_datagram(4, &[0, 1, 2, 3], 0), None);
    assert_eq!(tunnel.handle_client_datagram(0, &[2, 1, 2, 3], 0), None);
    assert_eq!(tunnel.handle_client_datagram(0, &[], 0), None);
}

#[test]
fn client_fragments_reassembled_for_target() {
    let mut tunnel = ServerTunnel::new(8, target());
    assert_eq!(tunnel.handle_client_datagram(8, &[1, 0, 7, 0, 2, 10, 11], 0), None);
    assert_eq!(tunnel.handle_client_datagram(8, &[1, 0, 7, 1, 2, 12], 0), Some(vec![10, 11, 12]));
}

#[test]
fn stale_client_fragments_are_cleared() {
    let mut tunnel = ServerTunnel::new(8, target());
    assert_eq!(tunnel.handle_client_datagram(8, &[1, 0, 7, 0, 2, 10], 0), None);
    tunnel.clear_old_fragments(10, 100);
    assert_eq!(tunnel.handle_client_datagram(8, &[1, 0, 7, 1, 2, 12], 100), None);
}

#[test]
fn target_payload_framed_only_from_target() {
    let tunnel = ServerTunnel::new(0, target());
    assert_eq!(tunnel.handle_target_datagram(target(), &[9, 8]), Some(vec![0, 9, 8]));
    let spoof = SocketAddress { ip: IpAddress::v4(192, 168, 1, 1), port: 7980 };
    assert_eq!(tunnel.handle_target_datagram(spoof, &[9, 8]), None);
}
