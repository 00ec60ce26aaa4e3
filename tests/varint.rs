use mullvad_masque_proxy::varint::{decode_varint, encode_varint};

#[test]
fn varint_one_byte() {
    assert_eq!(encode_varint(0), vec![0x00]);
    assert_eq!(encode_varint(37), vec![0x25]);
    assert_eq!(encode_varint(63), vec![0x3f]);
    assert_eq!(decode_varint(&[0x25]), Some((37, 1)));
}

#[test]
fn varint_two_bytes() {
    assert_eq!(encode_varint(64), vec![0x40, 0x40]);
    assert_eq!(encode_varint(15293), vec![0x7b, 0xbd]);
    assert_eq!(decode_varint(&[0x7b, 0xbd]), Some((15293, 2)));
}

#[test]
fn varint_four_and_eight_bytes() {
    assert_eq!(encode_varint(494878333), vec![0x9d, 0x7f, 0x3e, 0x7d]);
    assert_eq!(decode_varint(&[0x9d, 0x7f, 0x3e, 0x7d]), Some((494878333, 4)));
    assert_eq!(
        encode_varint(151288809941952652),
        vec![0xc2, 0x19, 0x7c, 0x5e, 0xff, 0x14, 0xe8, 0x8c]
    );
    assert_eq!(
        decode_varint(&[0xc2, 0x19, 0x7c, 0x5e, 0xff, 0x14, 0xe8, 0x8c, 0xaa]),
        Some((151288809941952652, 8))
    );
    assert_eq!(encode_varint((1u64 << 62) - 1), vec![0xff; 8]);
}

#[test]
fn varint_longer_encoding_of_small_value() {
    assert_eq!(decode_varint(&[0x40, 0x25]), Some((37, 2)));
    assert_eq!(decode_varint(&[0x40, 0x00, 0x99]), Some((0, 2)));
}

#[test]
fn varint_truncated() {
    assert_eq!(decode_varint(&[]), None);
    assert_eq!(decode_varint(&[0x40]), None);
    assert_eq!(decode_varint(&[0x9d, 0x7f, 0x3e]), None);
    assert_eq!(decode_varint(&[0xc2, 0x19, 0x7c, 0x5e, 0xff, 0x14, 0xe8]), None);
}

#[test]
fn varint_round_trip() {
    for v in [0u64, 1, 63, 64, 16383, 16384, 1073741823, 1073741824, (1u64 << 62) - 1] {
        let e = encode_varint(v);
        assert_eq!(decode_varint(&e), Some((v, e.len())));
    }
}
