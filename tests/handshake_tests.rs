use dh_exchange::bignum::BigNat;
use dh_exchange::codec::DHMessage;
use dh_exchange::crypto::{generate_dh_params, GroupParameters};
use dh_exchange::handshake::{HandshakeError, Initiator, Responder};

fn n(v: u64) -> BigNat {
    BigNat::from_u64(v)
}

/// Moves a message over an in-memory byte pipe.
fn carry(m: Option<DHMessage>) -> Option<DHMessage> {
    let bytes = m.expect("a message to send").to_bytes();
    DHMessage::from_bytes(&bytes)
}

#[test]
fn handshake_end_to_end_over_bytes() {
    let params = generate_dh_params(64).unwrap();
    for _ in 0..3 {
        let mut initiator = Initiator::new();
        let mut responder = Responder::new(params.duplicate());
        assert_eq!(responder.receive(carry(initiator.next_message())), Ok(()));
        assert_eq!(initiator.receive(carry(responder.next_message())), Ok(()));
        assert_eq!(responder.receive(carry(initiator.send_key())), Ok(()));
        assert_eq!(initiator.receive(carry(responder.send_key())), Ok(()));
        assert!(initiator.shared_secret().is_none());
        assert_eq!(responder.receive(carry(initiator.next_message())), Ok(()));
        let a = initiator.shared_secret().expect("initiator completes");
        let b = responder.shared_secret().expect("responder completes");
        assert_eq!(a, b);
    }
}

#[test]
fn handshake_with_fixed_secrets() {
    let params = GroupParameters::new(n(23), n(5)).unwrap();
    let mut initiator = Initiator::new();
    let mut responder = Responder::new(params);
    assert_eq!(responder.receive(initiator.next_message()), Ok(()));
    let hello = responder.next_message();
    assert_eq!(hello, Some(DHMessage::ServerHello { p: n(23), g: n(5) }));
    assert_eq!(initiator.receive(hello), Ok(()));
    let x = initiator.send_key_with(n(4));
    assert_eq!(x, Some(DHMessage::ClientPublicKey { x: n(4) }));
    assert_eq!(responder.receive(x), Ok(()));
    let y = responder.send_key_with(n(3));
    assert_eq!(y, Some(DHMessage::ServerPublicKey { y: n(10) }));
    assert_eq!(initiator.receive(y), Ok(()));
    assert_eq!(initiator.next_message(), Some(DHMessage::Done));
    assert_eq!(initiator.shared_secret(), Some(n(18)));
    assert_eq!(responder.receive(Some(DHMessage::Done)), Ok(()));
    assert_eq!(responder.shared_secret(), Some(n(18)));
}

#[test]
fn responder_aborts_on_done_first() {
    let params = GroupParameters::new(n(23), n(5)).unwrap();
    let mut responder = Responder::new(params);
    assert_eq!(responder.receive(Some(DHMessage::Done)), Err(HandshakeError::ProtocolViolation));
    assert!(responder.shared_secret().is_none());
    assert_eq!(responder.next_message(), None);
    assert_eq!(responder.receive(Some(DHMessage::ClientHello)), Err(HandshakeError::ProtocolViolation));
    assert!(responder.shared_secret().is_none());
}

#[test]
fn responder_aborts_on_undecodable_message() {
    let params = GroupParameters::new(n(23), n(5)).unwrap();
    let mut responder = Responder::new(params);
    assert_eq!(responder.receive(DHMessage::from_bytes(&[9])), Err(HandshakeError::Decode));
    assert!(responder.shared_secret().is_none());
}

#[test]
fn responder_aborts_on_done_before_client_key() {
    let params = GroupParameters::new(n(23), n(5)).unwrap();
    let mut responder = Responder::new(params);
    assert_eq!(responder.receive(Some(DHMessage::ClientHello)), Ok(()));
    assert!(responder.next_message().is_some());
    assert_eq!(responder.receive(Some(DHMessage::Done)), Err(HandshakeError::ProtocolViolation));
    assert_eq!(responder.send_key(), None);
    assert!(responder.shared_secret().is_none());
}

#[test]
fn initiator_aborts_on_wrong_reply() {
    let mut initiator = Initiator::new();
    assert_eq!(initiator.next_message(), Some(DHMessage::ClientHello));
    assert_eq!(
        initiator.receive(Some(DHMessage::ServerPublicKey { y: n(3) })),
        Err(HandshakeError::ProtocolViolation)
    );
    assert_eq!(initiator.send_key(), None);
    assert!(initiator.shared_secret().is_none());
}

#[test]
fn initiator_rejects_tiny_modulus() {
    let mut initiator = Initiator::new();
    assert!(initiator.next_message().is_some());
    assert_eq!(
        initiator.receive(Some(DHMessage::ServerHello { p: n(3), g: n(2) })),
        Err(HandshakeError::ProtocolViolation)
    );
    assert_eq!(initiator.send_key(), None);
}

#[test]
fn initiator_sends_nothing_out_of_turn() {
    let mut initiator = Initiator::new();
    assert_eq!(initiator.send_key_with(n(4)), None);
    assert_eq!(initiator.next_message(), Some(DHMessage::ClientHello));
    assert_eq!(initiator.next_message(), None);
}
