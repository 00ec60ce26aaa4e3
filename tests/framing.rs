use mullvad_masque_proxy::framing::{
    encode_datagram, encode_fragment, fragment_outgoing_packet, PacketTooLarge,
};

fn bytes(n: usize) -> Vec<u8> {
    (0..n).map(|i| (i % 251) as u8).collect()
}

#[test]
fn whole_datagram_has_context_zero() {
    assert_eq!(encode_datagram(&[7, 8, 9]), vec![0, 7, 8, 9]);
    assert_eq!(encode_datagram(&[]), vec![0]);
}

#[test]
fn fragment_has_header() {
    assert_eq!(
        encode_fragment(0x1234, 2, 5, &[0xaa, 0xbb]),
        vec![1, 0x12, 0x34, 2, 5, 0xaa, 0xbb]
    );
}

#[test]
fn fragments_of_3000_bytes_at_1200() {
    let payload = bytes(3000);
    let frags = fragment_outgoing_packet(1200, &payload, 9).unwrap();
    assert_eq!(frags.len(), 3);
    for (i, frag) in frags.iter().enumerate() {
        assert_eq!(&frag[..5], &[1, 0, 9, i as u8, 3]);
    }
    assert_eq!(frags[0].len(), 1205);
    assert_eq!(frags[1].len(), 1205);
    assert_eq!(frags[2].len(), 605);
    let joined: Vec<u8> = frags.iter().flat_map(|f| f[5..].to_vec()).collect();
    assert_eq!(joined, payload);
}

#[test]
fn fragments_exact_multiple() {
    let payload = bytes(2400);
    let frags = fragment_outgoing_packet(1200, &payload, 0).unwrap();
    assert_eq!(frags.len(), 2);
    assert_eq!(frags[1][4], 2);
    assert_eq!(frags[1].len(), 1205);
}

#[test]
fn fragments_at_most_255() {
    let payload = bytes(2550);
    let frags = fragment_outgoing_packet(10, &payload, 3).unwrap();
    assert_eq!(frags.len(), 255);
    assert_eq!(frags[254][3], 254);
    assert_eq!(frags[254][4], 255);
}

#[test]
fn fragments_too_many() {
    let payload = bytes(2551);
    assert_eq!(fragment_outgoing_packet(10, &payload, 3), Err(PacketTooLarge(2551)));
}
