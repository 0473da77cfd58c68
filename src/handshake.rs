//! The handshake state machines of the two roles, free of I/O: the caller
//! moves messages between the peers and feeds each machine what it receives.
//!
//! Initiator: `SendHello -> AwaitParams -> SendOwnKey -> AwaitPeerKey ->
//! SendDone -> SharedSecretReady`. Responder: `AwaitHello -> SendParams ->
//! AwaitClientKey -> SendOwnKey -> AwaitDone -> SharedSecretReady`. Any
//! unexpected or undecodable message aborts the session for good.
use crate::bignum::BigNat;
use crate::bignum::lemma_be_bytes_len_monotone;
use crate::codec::{decode_spec, encode_spec, int_fits, lemma_round_trip, DHMessage, MessageModel};
use crate::crypto::{
    compute_public_key, compute_shared_secret, generate_secret_key, group_ok, lemma_shared_secret_agreement,
    mod_pow_spec, GroupParameters,
};
use vstd::prelude::*;

verus! {

/// Why a session was aborted.
#[derive(Debug, Clone, Copy, PartialEq, Eq, Structural)]
pub enum HandshakeError {
    /// The transport failed or timed out.
    Transport,
    /// The received bytes are not a message.
    Decode,
    /// A message arrived that the current state does not accept.
    ProtocolViolation,
}

/// The value of a message, if any: `None` stands for a received message
/// that did not decode, or for nothing to send.
pub open spec fn message_model(msg: Option<DHMessage>) -> Option<MessageModel> {
    match msg {
        Some(m) => Some(m@),
        None => None,
    }
}

// ----- Initiator -----

/// The states of an initiator, with their values as naturals.
pub enum InitiatorModel {
    SendHello,
    AwaitParams,
    SendOwnKey { p: nat, g: nat },
    AwaitPeerKey { p: nat, secret: nat },
    SendDone { shared: nat },
    SharedSecretReady { shared: nat },
    Aborted,
}

/// The initiator's state after receiving `msg`, and the outcome.
pub open spec fn initiator_receive(s: InitiatorModel, msg: Option<MessageModel>) -> (InitiatorModel, Result<(), HandshakeError>) {
    match (s, msg) {
        (_, None) => (InitiatorModel::Aborted, Err(HandshakeError::Decode)),
        (InitiatorModel::AwaitParams, Some(MessageModel::ServerHello { p, g })) => if p >= 4 {
            (InitiatorModel::SendOwnKey { p, g }, Ok(()))
        } else {
            (InitiatorModel::Aborted, Err(HandshakeError::ProtocolViolation))
        },
        (InitiatorModel::AwaitPeerKey { p, secret }, Some(MessageModel::ServerPublicKey { y })) => (
            InitiatorModel::SendDone { shared: mod_pow_spec(y, secret, p) },
            Ok(()),
        ),
        _ => (InitiatorModel::Aborted, Err(HandshakeError::ProtocolViolation)),
    }
}

/// The initiator's state after sending its next fixed message, and that
/// message; `None` in states that send none of them.
pub open spec fn initiator_send(s: InitiatorModel) -> (InitiatorModel, Option<MessageModel>) {
    match s {
        InitiatorModel::SendHello => (InitiatorModel::AwaitParams, Some(MessageModel::ClientHello)),
        InitiatorModel::SendDone { shared } => (InitiatorModel::SharedSecretReady { shared }, Some(MessageModel::Done)),
        _ => (s, None),
    }
}

/// The initiator's state after sending its public value for `secret`, and
/// that message; `None` outside `SendOwnKey`.
pub open spec fn initiator_send_key(s: InitiatorModel, secret: nat) -> (InitiatorModel, Option<MessageModel>) {
    match s {
        InitiatorModel::SendOwnKey { p, g } => (
            InitiatorModel::AwaitPeerKey { p, secret },
            Some(MessageModel::ClientPublicKey { x: mod_pow_spec(g, secret, p) }),
        ),
        _ => (s, None),
    }
}

/// The states of an initiator.
#[derive(Debug)]
pub enum InitiatorState {
    SendHello,
    AwaitParams,
    SendOwnKey { p: BigNat, g: BigNat },
    AwaitPeerKey { p: BigNat, secret: BigNat },
    SendDone { shared: BigNat },
    SharedSecretReady { shared: BigNat },
    Aborted,
}

impl View for InitiatorState {
    type V = InitiatorModel;

    open spec fn view(&self) -> InitiatorModel {
        match self {
            InitiatorState::SendHello => InitiatorModel::SendHello,
            InitiatorState::AwaitParams => InitiatorModel::AwaitParams,
            InitiatorState::SendOwnKey { p, g } => InitiatorModel::SendOwnKey { p: p@, g: g@ },
            InitiatorState::AwaitPeerKey { p, secret } => InitiatorModel::AwaitPeerKey { p: p@, secret: secret@ },
            InitiatorState::SendDone { shared } => InitiatorModel::SendDone { shared: shared@ },
            InitiatorState::SharedSecretReady { shared } => InitiatorModel::SharedSecretReady { shared: shared@ },
            InitiatorState::Aborted => InitiatorModel::Aborted,
        }
    }
}

/// A modulus held by an initiator state is at least 4.
pub open spec fn initiator_ok(s: InitiatorModel) -> bool {
    match s {
        InitiatorModel::SendOwnKey { p, .. } => p >= 4,
        InitiatorModel::AwaitPeerKey { p, .. } => p >= 4,
        _ => true,
    }
}

/// The initiating side of one session.
#[derive(Debug)]
pub struct Initiator {
    state: InitiatorState,
}

impl View for Initiator {
    type V = InitiatorModel;

    closed spec fn view(&self) -> InitiatorModel {
        self.state@
    }
}

impl Initiator {
    #[verifier::type_invariant]
    closed spec fn inv(&self) -> bool {
        initiator_ok(self.state@)
    }

    /// A session about to send its `ClientHello`.
    pub fn new() -> (r: Initiator)
        ensures
            r@ == InitiatorModel::SendHello,
    {
        Initiator { state: InitiatorState::SendHello }
    }

    /// Takes the received message (`None` where it did not decode).
    pub fn receive(&mut self, msg: Option<DHMessage>) -> (r: Result<(), HandshakeError>)
        ensures
            (final(self)@, r) == initiator_receive(old(self)@, message_model(msg)),
    {
        proof {
            use_type_invariant(&*self);
        }
        let mut state = InitiatorState::Aborted;
        std::mem::swap(&mut self.state, &mut state);
        match (state, msg) {
            (_, None) => Err(HandshakeError::Decode),
            (InitiatorState::AwaitParams, Some(DHMessage::ServerHello { p, g })) => {
                if p.is_below(4) {
                    Err(HandshakeError::ProtocolViolation)
                } else {
                    self.state = InitiatorState::SendOwnKey { p, g };
                    Ok(())
                }
            },
            (InitiatorState::AwaitPeerKey { p, secret }, Some(DHMessage::ServerPublicKey { y })) => {
                let shared = compute_shared_secret(&y, &secret, &p);
                self.state = InitiatorState::SendDone { shared };
                Ok(())
            },
            _ => Err(HandshakeError::ProtocolViolation),
        }
    }

    /// Sends the next fixed message (`ClientHello` or `Done`), if the state
    /// has one to send.
    pub fn next_message(&mut self) -> (r: Option<DHMessage>)
        ensures
            (final(self)@, message_model(r)) == initiator_send(old(self)@),
    {
        proof {
            use_type_invariant(&*self);
        }
        let mut state = InitiatorState::Aborted;
        std::mem::swap(&mut self.state, &mut state);
        match state {
            InitiatorState::SendHello => {
                self.state = InitiatorState::AwaitParams;
                Some(DHMessage::ClientHello)
            },
            InitiatorState::SendDone { shared } => {
                self.state = InitiatorState::SharedSecretReady { shared };
                Some(DHMessage::Done)
            },
            other => {
                self.state = other;
                None
            },
        }
    }

    /// Sends the public value for the given secret exponent, in `SendOwnKey`.
    pub fn send_key_with(&mut self, secret: BigNat) -> (r: Option<DHMessage>)
        ensures
            (final(self)@, message_model(r)) == initiator_send_key(old(self)@, secret@),
    {
        proof {
            use_type_invariant(&*self);
        }
        let mut state = InitiatorState::Aborted;
        std::mem::swap(&mut self.state, &mut state);
        match state {
            InitiatorState::SendOwnKey { p, g } => {
                let x = compute_public_key(&secret, &g, &p);
                self.state = InitiatorState::AwaitPeerKey { p, secret };
                Some(DHMessage::ClientPublicKey { x })
            },
            other => {
                self.state = other;
                None
            },
        }
    }

    /// Draws a fresh secret exponent in `[2, p - 2]` and sends its public
    /// value, in `SendOwnKey`.
    pub fn send_key(&mut self) -> (r: Option<DHMessage>)
        ensures
            exists|s: nat|
                (old(self)@ matches InitiatorModel::SendOwnKey { p, .. } ==> 2 <= s <= p - 2) && (final(self)@, message_model(r))
                    == initiator_send_key(old(self)@, s),
    {
        proof {
            use_type_invariant(&*self);
        }
        let secret = match &self.state {
            InitiatorState::SendOwnKey { p, .. } => generate_secret_key(p),
            _ => {
                assert(initiator_send_key(self@, 0) == (self@, None::<MessageModel>));
                return None;
            },
        };
        let r = self.send_key_with(secret);
        r
    }

    /// The shared secret, once the session has completed.
    pub fn shared_secret(&self) -> (r: Option<BigNat>)
        ensures
            r is Some <==> self@ is SharedSecretReady,
            r matches Some(v) ==> self@ == (InitiatorModel::SharedSecretReady { shared: v@ }),
    {
        match &self.state {
            InitiatorState::SharedSecretReady { shared } => Some(shared.duplicate()),
            _ => None,
        }
    }
}

// ----- Responder -----

/// The states of a responder, with their values as naturals.
pub enum ResponderModel {
    AwaitHello,
    SendParams,
    AwaitClientKey,
    SendOwnKey { peer_public: nat },
    AwaitDone { peer_public: nat, secret: nat },
    SharedSecretReady { shared: nat },
    Aborted,
}

/// The responder's state after receiving `msg` under parameters
/// `(p, g)`, and the outcome.
pub open spec fn responder_receive(s: ResponderModel, params: (nat, nat), msg: Option<MessageModel>) -> (ResponderModel, Result<(), HandshakeError>) {
    match (s, msg) {
        (_, None) => (ResponderModel::Aborted, Err(HandshakeError::Decode)),
        (ResponderModel::AwaitHello, Some(MessageModel::ClientHello)) => (ResponderModel::SendParams, Ok(())),
        (ResponderModel::AwaitClientKey, Some(MessageModel::ClientPublicKey { x })) => (
            ResponderModel::SendOwnKey { peer_public: x },
            Ok(()),
        ),
        (ResponderModel::AwaitDone { peer_public, secret }, Some(MessageModel::Done)) => (
            ResponderModel::SharedSecretReady { shared: mod_pow_spec(peer_public, secret, params.0) },
            Ok(()),
        ),
        _ => (ResponderModel::Aborted, Err(HandshakeError::ProtocolViolation)),
    }
}

/// The responder's state after sending its parameters, and that message;
/// `None` outside `SendParams`.
pub open spec fn responder_send(s: ResponderModel, params: (nat, nat)) -> (ResponderModel, Option<MessageModel>) {
    match s {
        ResponderModel::SendParams => (
            ResponderModel::AwaitClientKey,
            Some(MessageModel::ServerHello { p: params.0, g: params.1 }),
        ),
        _ => (s, None),
    }
}

/// The responder's state after sending its public value for `secret`, and
/// that message; `None` outside `SendOwnKey`.
pub open spec fn responder_send_key(s: ResponderModel, params: (nat, nat), secret: nat) -> (ResponderModel, Option<MessageModel>) {
    match s {
        ResponderModel::SendOwnKey { peer_public } => (
            ResponderModel::AwaitDone { peer_public, secret },
            Some(MessageModel::ServerPublicKey { y: mod_pow_spec(params.1, secret, params.0) }),
        ),
        _ => (s, None),
    }
}

/// The states of a responder.
#[derive(Debug)]
pub enum ResponderState {
    AwaitHello,
    SendParams,
    AwaitClientKey,
    SendOwnKey { peer_public: BigNat },
    AwaitDone { peer_public: BigNat, secret: BigNat },
    SharedSecretReady { shared: BigNat },
    Aborted,
}

impl View for ResponderState {
    type V = ResponderModel;

    open spec fn view(&self) -> ResponderModel {
        match self {
            ResponderState::AwaitHello => ResponderModel::AwaitHello,
            ResponderState::SendParams => ResponderModel::SendParams,
            ResponderState::AwaitClientKey => ResponderModel::AwaitClientKey,
            ResponderState::SendOwnKey { peer_public } => ResponderModel::SendOwnKey { peer_public: peer_public@ },
            ResponderState::AwaitDone { peer_public, secret } => ResponderModel::AwaitDone {
                peer_public: peer_public@,
                secret: secret@,
            },
            ResponderState::SharedSecretReady { shared } => ResponderModel::SharedSecretReady { shared: shared@ },
            ResponderState::Aborted => ResponderModel::Aborted,
        }
    }
}

/// The responding side of one session, over shared group parameters.
#[derive(Debug)]
pub struct Responder {
    params: GroupParameters,
    state: ResponderState,
}

impl View for Responder {
    type V = (ResponderModel, (nat, nat));

    closed spec fn view(&self) -> (ResponderModel, (nat, nat)) {
        (self.state@, self.params@)
    }
}

impl Responder {
    /// A session over `params`, waiting for `ClientHello`.
    pub fn new(params: GroupParameters) -> (r: Responder)
        ensures
            r@ == (ResponderModel::AwaitHello, params@),
    {
        Responder { params, state: ResponderState::AwaitHello }
    }

    /// The group parameters of the session, which are valid.
    pub fn params(&self) -> (r: &GroupParameters)
        ensures
            r@ == self@.1,
            group_ok(self@.1.0, self@.1.1),
    {
        let r = &self.params;
        // The getter's contract carries the parameters' validity.
        let _ = r.p();
        r
    }

    /// Takes the received message (`None` where it did not decode).
    pub fn receive(&mut self, msg: Option<DHMessage>) -> (r: Result<(), HandshakeError>)
        ensures
            final(self)@.1 == old(self)@.1,
            (final(self)@.0, r) == responder_receive(old(self)@.0, old(self)@.1, message_model(msg)),
    {
        let mut state = ResponderState::Aborted;
        std::mem::swap(&mut self.state, &mut state);
        match (state, msg) {
            (_, None) => Err(HandshakeError::Decode),
            (ResponderState::AwaitHello, Some(DHMessage::ClientHello)) => {
                self.state = ResponderState::SendParams;
                Ok(())
            },
            (ResponderState::AwaitClientKey, Some(DHMessage::ClientPublicKey { x })) => {
                self.state = ResponderState::SendOwnKey { peer_public: x };
                Ok(())
            },
            (ResponderState::AwaitDone { peer_public, secret }, Some(DHMessage::Done)) => {
                let p = self.params.p();
                let shared = compute_shared_secret(&peer_public, &secret, p);
                self.state = ResponderState::SharedSecretReady { shared };
                Ok(())
            },
            _ => Err(HandshakeError::ProtocolViolation),
        }
    }

    /// Sends `ServerHello` with the session's parameters, in `SendParams`.
    pub fn next_message(&mut self) -> (r: Option<DHMessage>)
        ensures
            final(self)@.1 == old(self)@.1,
            (final(self)@.0, message_model(r)) == responder_send(old(self)@.0, old(self)@.1),
    {
        match self.state {
            ResponderState::SendParams => {
                self.state = ResponderState::AwaitClientKey;
                Some(DHMessage::ServerHello { p: self.params.p().duplicate(), g: self.params.g().duplicate() })
            },
            _ => None,
        }
    }

    /// Sends the public value for the given secret exponent, in `SendOwnKey`.
    pub fn send_key_with(&mut self, secret: BigNat) -> (r: Option<DHMessage>)
        ensures
            final(self)@.1 == old(self)@.1,
            (final(self)@.0, message_model(r)) == responder_send_key(old(self)@.0, old(self)@.1, secret@),
    {
        let mut state = ResponderState::Aborted;
        std::mem::swap(&mut self.state, &mut state);
        match state {
            ResponderState::SendOwnKey { peer_public } => {
                let y = compute_public_key(&secret, self.params.g(), self.params.p());
                self.state = ResponderState::AwaitDone { peer_public, secret };
                Some(DHMessage::ServerPublicKey { y })
            },
            other => {
                self.state = other;
                None
            },
        }
    }

    /// Draws a fresh secret exponent in `[2, p - 2]` and sends its public
    /// value, in `SendOwnKey`.
    pub fn send_key(&mut self) -> (r: Option<DHMessage>)
        ensures
            final(self)@.1 == old(self)@.1,
            exists|s: nat|
                2 <= s <= old(self)@.1.0 - 2 && (final(self)@.0, message_model(r)) == responder_send_key(
                    old(self)@.0,
                    old(self)@.1,
                    s,
                ),
    {
        let secret = generate_secret_key(self.params.p());
        self.send_key_with(secret)
    }

    /// The shared secret, once the session has completed.
    pub fn shared_secret(&self) -> (r: Option<BigNat>)
        ensures
            r is Some <==> self@.0 is SharedSecretReady,
            r matches Some(v) ==> self@.0 == (ResponderModel::SharedSecretReady { shared: v@ }),
    {
        match &self.state {
            ResponderState::SharedSecretReady { shared } => Some(shared.duplicate()),
            _ => None,
        }
    }
}

/// A message sent as bytes and decoded on the other side.
pub open spec fn carry(m: Option<MessageModel>) -> Option<MessageModel> {
    match m {
        Some(v) => decode_spec(encode_spec(v)),
        None => None,
    }
}

/// The final states of an initiator and a responder over parameters
/// `(p, g)` that pass each other every message in order, encoded and
/// decoded, where the initiator draws secret `x` and the responder secret `y`.
pub open spec fn run_handshake(p: nat, g: nat, x: nat, y: nat) -> (InitiatorModel, ResponderModel) {
    let params = (p, g);
    let (i1, m1) = initiator_send(InitiatorModel::SendHello);
    let (r1, _) = responder_receive(ResponderModel::AwaitHello, params, carry(m1));
    let (r2, m2) = responder_send(r1, params);
    let (i2, _) = initiator_receive(i1, carry(m2));
    let (i3, m3) = initiator_send_key(i2, x);
    let (r3, _) = responder_receive(r2, params, carry(m3));
    let (r4, m4) = responder_send_key(r3, params, y);
    let (i4, _) = initiator_receive(i3, carry(m4));
    let (i5, m5) = initiator_send(i4);
    let (r5, _) = responder_receive(r4, params, carry(m5));
    (i5, r5)
}

/// A value reduced modulo `p`, or 1, fits the length prefix where `p` does.
proof fn lemma_mod_pow_fits(b: nat, e: nat, p: nat)
    requires
        p >= 2,
        int_fits(p),
    ensures
        int_fits(mod_pow_spec(b, e, p)),
{
    lemma_be_bytes_len_monotone(mod_pow_spec(b, e, p), p);
}

/// An honest run over a byte transport completes on both sides with the
/// same shared secret, for any valid parameters whose modulus fits the
/// length prefix and any two secret exponents.
pub proof fn lemma_handshake_agreement(p: nat, g: nat, x: nat, y: nat)
    requires
        group_ok(p, g),
        int_fits(p),
    ensures
        run_handshake(p, g, x, y).0 == (InitiatorModel::SharedSecretReady {
            shared: mod_pow_spec(mod_pow_spec(g, y, p), x, p),
        }),
        run_handshake(p, g, x, y).1 == (ResponderModel::SharedSecretReady {
            shared: mod_pow_spec(mod_pow_spec(g, x, p), y, p),
        }),
        mod_pow_spec(mod_pow_spec(g, y, p), x, p) == mod_pow_spec(mod_pow_spec(g, x, p), y, p),
{
    lemma_shared_secret_agreement(p, g, x, y);
    lemma_be_bytes_len_monotone(g, p);
    lemma_mod_pow_fits(g, x, p);
    lemma_mod_pow_fits(g, y, p);
    lemma_round_trip(MessageModel::ClientHello);
    lemma_round_trip(MessageModel::ServerHello { p, g });
    lemma_round_trip(MessageModel::ClientPublicKey { x: mod_pow_spec(g, x, p) });
    lemma_round_trip(MessageModel::ServerPublicKey { y: mod_pow_spec(g, y, p) });
    lemma_round_trip(MessageModel::Done);
}

} // verus!
