use mullvad_masque_proxy::framing::PacketTooLarge;
use mullvad_masque_proxy::fragment::Fragments;
use mullvad_masque_proxy::server::ServerTunnel;
use mullvad_masque_proxy::session::{handle_response, ClientSession, UnexpectedStatus};
use mullvad_masque_proxy::target::{IpAddress, SocketAddress};

fn bytes(n: usize, seed: u8) -> Vec<u8> {
    (0..n).map(|i| ((i % 251) as u8).wrapping_add(seed)).collect()
}

fn local() -> SocketAddress {
    SocketAddress { ip: IpAddress::v4(127, 0, 0, 1), port: 5000 }
}

#[test]
fn three_local_datagrams_with_one_fragmented() {
    let mut client = ClientSession::new(4, 1200);
    let d1 = bytes(100, 1);
    let d2 = bytes(3000, 2);
    let d3 = bytes(50, 3);

    let out1 = client.handle_local_datagram(local(), &d1).unwrap();
    assert_eq!(out1.len(), 1);
    assert_eq!(out1[0][0], 0);
    assert_eq!(&out1[0][1..], &d1[..]);

    let out2 = client.handle_local_datagram(local(), &d2).unwrap();
    assert_eq!(out2.len(), 3);
    for (i, frag) in out2.iter().enumerate() {
        assert_eq!(frag[0], 1);
        assert_eq!(&frag[1..3], &out2[0][1..3]);
        assert_eq!(frag[3], i as u8);
        assert_eq!(frag[4], 3);
    }

    let out3 = client.handle_local_datagram(local(), &d3).unwrap();
    assert_eq!(out3.len(), 1);
    assert_eq!(out3[0][0], 0);
    assert_eq!(&out3[0][1..], &d3[..]);

    // the server forwards each payload to the target as it was sent
    let target = SocketAddress { ip: IpAddress::v4(10, 0, 0, 9), port: 53 };
    let mut server = ServerTunnel::new(4, target);
    assert_eq!(server.handle_client_datagram(4, &out1[0], 0), Some(d1.clone()));
    assert_eq!(server.handle_client_datagram(4, &out2[0], 0), None);
    assert_eq!(server.handle_client_datagram(4, &out2[1], 0), None);
    assert_eq!(server.handle_client_datagram(4, &out2[2], 0), Some(d2.clone()));
    assert_eq!(server.handle_client_datagram(4, &out3[0], 0), Some(d3.clone()));

    // and so does a client reading the same datagrams
    let mut peer = ClientSession::new(4, 1200);
    assert_eq!(peer.handle_remote_datagram(4, &out2[0], 0), None);
    assert_eq!(peer.handle_remote_datagram(4, &out2[1], 0), None);
    assert_eq!(peer.handle_remote_datagram(4, &out2[2], 0), Some(d2.clone()));

    let mut table = Fragments::new();
    let mut last = None;
    for frag in &out2 {
        last = table.insert(&frag[1..], 0).unwrap();
    }
    assert_eq!(last, Some(d2));
}

#[test]
fn payload_at_maximum_is_sent_whole() {
    let mut client = ClientSession::new(0, 1200);
    let p = bytes(1200, 0);
    let out = client.handle_local_datagram(local(), &p).unwrap();
    assert_eq!(out.len(), 1);
    assert_eq!(out[0].len(), 1201);
    let out = client.handle_local_datagram(local(), &bytes(1201, 0)).unwrap();
    assert_eq!(out.len(), 2);
}

#[test]
fn packet_ids_increase_per_fragmented_payload() {
    let mut client = ClientSession::new(0, 10);
    let a = client.handle_local_datagram(local(), &bytes(25, 0)).unwrap();
    let b = client.handle_local_datagram(local(), &bytes(5, 0)).unwrap();
    let c = client.handle_local_datagram(local(), &bytes(25, 0)).unwrap();
    assert_eq!(&a[0][1..3], &[0, 1]);
    assert_eq!(b.len(), 1);
    assert_eq!(&c[0][1..3], &[0, 2]);
}

#[test]
fn oversized_payload_is_refused() {
    let mut client = ClientSession::new(0, 10);
    assert_eq!(client.handle_local_datagram(local(), &bytes(2551, 0)), Err(PacketTooLarge(2551)));
    let next = client.handle_local_datagram(local(), &bytes(25, 0)).unwrap();
    assert_eq!(&next[0][1..3], &[0, 1]);
}

#[test]
fn return_address_is_last_sender() {
    let mut client = ClientSession::new(0, 100);
    assert_eq!(client.return_addr(), SocketAddress { ip: IpAddress::V4(0), port: 0 });
    let other = SocketAddress { ip: IpAddress::v4(127, 0, 0, 1), port: 6000 };
    client.handle_local_datagram(local(), &[1]).unwrap();
    client.handle_local_datagram(other, &[1]).unwrap();
    assert_eq!(client.return_addr(), other);
}

#[test]
fn zero_stream_id_carries_datagrams() {
    let mut client = ClientSession::new(0, 100);
    assert_eq!(client.stream_id(), 0);
    assert_eq!(client.handle_remote_datagram(0, &[0, 5, 6], 0), Some(vec![5, 6]));
}

#[test]
fn remote_datagrams_of_other_streams_or_contexts_are_dropped() {
    let mut client = ClientSession::new(8, 100);
    assert_eq!(client.handle_remote_datagram(4, &[0, 5, 6], 0), None);
    assert_eq!(client.handle_remote_datagram(8, &[2, 5, 6], 0), None);
    assert_eq!(client.handle_remote_datagram(8, &[], 0), None);
    assert_eq!(client.handle_remote_datagram(8, &[1, 0, 1], 0), None);
    assert_eq!(client.handle_remote_datagram(8, &[0x40, 0x00, 9], 0), Some(vec![9]));
}

#[test]
fn stale_fragments_are_cleared() {
    let mut client = ClientSession::new(8, 100);
    assert_eq!(client.handle_remote_datagram(8, &[1, 0, 3, 0, 2, 10], 0), None);
    client.clear_old_fragments(100, 1000);
    assert_eq!(client.handle_remote_datagram(8, &[1, 0, 3, 1, 2, 11], 1000), None);
    assert_eq!(client.handle_remote_datagram(8, &[1, 0, 3, 0, 2, 12], 1000), Some(vec![11, 12]));
}

#[test]
fn only_200_completes_negotiation() {
    assert_eq!(handle_response(200), Ok(()));
    assert_eq!(handle_response(400), Err(UnexpectedStatus(400)));
    assert_eq!(handle_response(502), Err(UnexpectedStatus(502)));
}

#[test]
fn test_zero_stream_id() {
    h3::quic::StreamId::try_from(0).expect("need to be able to create stream IDs with 0, no?");
}
