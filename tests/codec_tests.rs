use dh_exchange::bignum::BigNat;
use dh_exchange::codec::DHMessage;

fn n(v: u64) -> BigNat {
    BigNat::from_u64(v)
}

fn big() -> BigNat {
    BigNat::from_bytes_be(&[0x12, 0x34, 0x56, 0x78, 0x9a, 0xbc, 0xde, 0xf0, 0x11, 0x22])
}

fn samples() -> Vec<DHMessage> {
    vec![
        DHMessage::ClientHello,
        DHMessage::ServerHello { p: big(), g: n(5) },
        DHMessage::ServerHello { p: n(0), g: big() },
        DHMessage::ClientPublicKey { x: n(0) },
        DHMessage::ClientPublicKey { x: big() },
        DHMessage::ServerPublicKey { y: n(258) },
        DHMessage::ServerPublicKey { y: big() },
        DHMessage::Done,
    ]
}

#[test]
fn encodes_tags_and_length_prefixes() {
    assert_eq!(DHMessage::ClientHello.to_bytes(), vec![0]);
    assert_eq!(DHMessage::Done.to_bytes(), vec![4]);
    assert_eq!(DHMessage::ClientPublicKey { x: n(258) }.to_bytes(), vec![2, 0, 0, 0, 2, 1, 2]);
    assert_eq!(DHMessage::ServerPublicKey { y: n(0) }.to_bytes(), vec![3, 0, 0, 0, 1, 0]);
    assert_eq!(
        DHMessage::ServerHello { p: n(23), g: n(5) }.to_bytes(),
        vec![1, 0, 0, 0, 1, 23, 0, 0, 0, 1, 5]
    );
    let long = DHMessage::ClientPublicKey { x: big() }.to_bytes();
    assert_eq!(&long[..5], &[2, 0, 0, 0, 10]);
    assert_eq!(&long[5..], &[0x12, 0x34, 0x56, 0x78, 0x9a, 0xbc, 0xde, 0xf0, 0x11, 0x22]);
}

#[test]
fn round_trip_every_variant() {
    for m in samples() {
        let bytes = m.to_bytes();
        assert_eq!(DHMessage::from_bytes(&bytes), Some(m));
    }
}

#[test]
fn decodes_zero_length_magnitude() {
    assert_eq!(DHMessage::from_bytes(&[3, 0, 0, 0, 0]), Some(DHMessage::ServerPublicKey { y: n(0) }));
    assert_eq!(
        DHMessage::from_bytes(&[1, 0, 0, 0, 0, 0, 0, 0, 0]),
        Some(DHMessage::ServerHello { p: n(0), g: n(0) })
    );
}

#[test]
fn decodes_leading_zero_magnitude() {
    assert_eq!(DHMessage::from_bytes(&[2, 0, 0, 0, 3, 0, 1, 2]), Some(DHMessage::ClientPublicKey { x: n(258) }));
}

#[test]
fn rejects_every_truncation() {
    for m in samples() {
        let bytes = m.to_bytes();
        for k in 0..bytes.len() {
            assert_eq!(DHMessage::from_bytes(&bytes[..k]), None, "prefix of length {}", k);
        }
    }
}

#[test]
fn rejects_short_length_and_short_payload() {
    assert_eq!(DHMessage::from_bytes(&[2, 0, 0]), None);
    assert_eq!(DHMessage::from_bytes(&[2, 0, 0, 0, 5, 1, 2]), None);
    assert_eq!(DHMessage::from_bytes(&[1, 0, 0, 0, 1, 7, 0, 0]), None);
    assert_eq!(DHMessage::from_bytes(&[3, 0xff, 0xff, 0xff, 0xff, 1]), None);
}

#[test]
fn rejects_empty_and_unknown_tag() {
    assert_eq!(DHMessage::from_bytes(&[]), None);
    assert_eq!(DHMessage::from_bytes(&[5]), None);
    assert_eq!(DHMessage::from_bytes(&[255, 0, 0, 0, 0]), None);
}

#[test]
fn ignores_trailing_bytes() {
    assert_eq!(DHMessage::from_bytes(&[0, 9, 9]), Some(DHMessage::ClientHello));
    assert_eq!(DHMessage::from_bytes(&[2, 0, 0, 0, 1, 7, 4]), Some(DHMessage::ClientPublicKey { x: n(7) }));
}

#[test]
fn bignum_bytes_round_trip() {
    assert_eq!(n(0).to_bytes_be(), vec![0]);
    assert_eq!(n(256).to_bytes_be(), vec![1, 0]);
    assert_eq!(BigNat::from_bytes_be(&[]), n(0));
    assert_eq!(BigNat::from_bytes_be(&[0, 0, 1, 0]), n(256));
    assert!(n(7).equals(&BigNat::from_bytes_be(&[7])));
    assert!(!n(7).equals(&n(8)));
    assert!(n(0).is_zero());
    assert!(n(7).is_odd());
    assert!(!n(256).is_odd());
    assert!(n(3).is_below(4));
    assert!(!n(300).is_below(4));
}

#[test]
fn framing_counts_missing_bytes() {
    assert_eq!(DHMessage::missing_len(&[]), Some(1));
    assert_eq!(DHMessage::missing_len(&[0]), Some(0));
    assert_eq!(DHMessage::missing_len(&[4]), Some(0));
    assert_eq!(DHMessage::missing_len(&[7]), None);
    assert_eq!(DHMessage::missing_len(&[2]), Some(4));
    assert_eq!(DHMessage::missing_len(&[2, 0, 0]), Some(2));
    assert_eq!(DHMessage::missing_len(&[2, 0, 0, 0, 3]), Some(3));
    assert_eq!(DHMessage::missing_len(&[2, 0, 0, 0, 3, 1, 2, 3]), Some(0));
    assert_eq!(DHMessage::missing_len(&[1, 0, 0, 0, 1, 23]), Some(4));
    assert_eq!(DHMessage::missing_len(&[1, 0, 0, 0, 1, 23, 0, 0, 0, 1]), Some(1));
    assert_eq!(DHMessage::missing_len(&[1, 0, 0, 0, 1, 23, 0, 0, 0, 1, 5]), Some(0));
}

#[test]
fn framing_reads_whole_messages() {
    for m in samples() {
        let wire = m.to_bytes();
        let mut buf: Vec<u8> = Vec::new();
        loop {
            match DHMessage::missing_len(&buf) {
                Some(0) => break,
                Some(k) => buf.extend_from_slice(&wire[buf.len()..buf.len() + k]),
                None => panic!("known tag"),
            }
        }
        assert_eq!(buf, wire);
        assert_eq!(DHMessage::from_bytes(&buf), Some(m));
    }
}
