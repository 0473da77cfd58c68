//! The handshake messages and their wire encoding.
//!
//! A message is a tag byte followed by its integers; an integer is a 4-byte
//! big-endian length `L` followed by `L` bytes of big-endian magnitude.
use crate::bignum::{be_bytes, be_value, lemma_be_bytes_value, BigNat};
use vstd::prelude::*;
use vstd::slice::slice_subrange;

verus! {

/// The value of a handshake message, with its integers as naturals.
pub enum MessageModel {
    ClientHello,
    ServerHello { p: nat, g: nat },
    ClientPublicKey { x: nat },
    ServerPublicKey { y: nat },
    Done,
}

/// A handshake message.
#[derive(Debug)]
pub enum DHMessage {
    /// The initiator opens the exchange.
    ClientHello,
    /// The responder's prime modulus `p` and generator `g`.
    ServerHello { p: BigNat, g: BigNat },
    /// The initiator's public value `g^x mod p`.
    ClientPublicKey { x: BigNat },
    /// The responder's public value `g^y mod p`.
    ServerPublicKey { y: BigNat },
    /// The initiator ends the exchange.
    Done,
}

impl View for DHMessage {
    type V = MessageModel;

    open spec fn view(&self) -> MessageModel {
        match self {
            DHMessage::ClientHello => MessageModel::ClientHello,
            DHMessage::ServerHello { p, g } => MessageModel::ServerHello { p: p@, g: g@ },
            DHMessage::ClientPublicKey { x } => MessageModel::ClientPublicKey { x: x@ },
            DHMessage::ServerPublicKey { y } => MessageModel::ServerPublicKey { y: y@ },
            DHMessage::Done => MessageModel::Done,
        }
    }
}

/// The 4-byte big-endian form of `n < 2^32`.
pub open spec fn u32_be(n: nat) -> Seq<u8> {
    seq![(n / 16777216) as u8, ((n / 65536) % 256) as u8, ((n / 256) % 256) as u8, (n % 256) as u8]
}

/// The wire form of an integer: its length, then its shortest big-endian bytes.
pub open spec fn encode_int(n: nat) -> Seq<u8> {
    u32_be(be_bytes(n).len()) + be_bytes(n)
}

/// The length of the shortest big-endian form of `n` fits the 4-byte prefix.
pub open spec fn int_fits(n: nat) -> bool {
    be_bytes(n).len() <= u32::MAX
}

/// Every integer of `m` fits the 4-byte length prefix.
pub open spec fn encodable(m: MessageModel) -> bool {
    match m {
        MessageModel::ServerHello { p, g } => int_fits(p) && int_fits(g),
        MessageModel::ClientPublicKey { x } => int_fits(x),
        MessageModel::ServerPublicKey { y } => int_fits(y),
        _ => true,
    }
}

/// The wire form of a message.
pub open spec fn encode_spec(m: MessageModel) -> Seq<u8> {
    match m {
        MessageModel::ClientHello => seq![0u8],
        MessageModel::ServerHello { p, g } => seq![1u8] + encode_int(p) + encode_int(g),
        MessageModel::ClientPublicKey { x } => seq![2u8] + encode_int(x),
        MessageModel::ServerPublicKey { y } => seq![3u8] + encode_int(y),
        MessageModel::Done => seq![4u8],
    }
}

/// Reads a length-prefixed integer of `s` at `c`: its value and the position
/// after it, or `None` where `s` ends first.
pub open spec fn decode_int(s: Seq<u8>, c: nat) -> Option<(nat, nat)> {
    if c + 4 > s.len() {
        None
    } else {
        let len = be_value(s.subrange(c as int, c + 4 as int));
        if c + 4 + len > s.len() {
            None
        } else {
            Some((be_value(s.subrange(c + 4 as int, c + 4 + len as int)), c + 4 + len))
        }
    }
}

/// Reads a message from the front of `s`; bytes after it are ignored. `None`
/// for an empty input, an unknown tag, or an input that ends inside the
/// message.
pub open spec fn decode_spec(s: Seq<u8>) -> Option<MessageModel> {
    if s.len() == 0 {
        None
    } else if s[0] == 0 {
        Some(MessageModel::ClientHello)
    } else if s[0] == 1 {
        match decode_int(s, 1) {
            None => None,
            Some((p, c)) => match decode_int(s, c) {
                None => None,
                Some((g, _)) => Some(MessageModel::ServerHello { p, g }),
            },
        }
    } else if s[0] == 2 {
        match decode_int(s, 1) {
            None => None,
            Some((x, _)) => Some(MessageModel::ClientPublicKey { x }),
        }
    } else if s[0] == 3 {
        match decode_int(s, 1) {
            None => None,
            Some((y, _)) => Some(MessageModel::ServerPublicKey { y }),
        }
    } else if s[0] == 4 {
        Some(MessageModel::Done)
    } else {
        None
    }
}

proof fn lemma_be_value4(s: Seq<u8>)
    requires
        s.len() == 4,
    ensures
        be_value(s) == s[0] as nat * 16777216 + s[1] as nat * 65536 + s[2] as nat * 256 + s[3] as nat,
{
    let s3 = s.drop_last();
    let s2 = s3.drop_last();
    let s1 = s2.drop_last();
    let s0 = s1.drop_last();
    assert(s0.len() == 0);
    assert(be_value(s0) == 0);
    assert(be_value(s1) == s[0] as nat);
    assert(be_value(s2) == s[0] as nat * 256 + s[1] as nat);
    assert(be_value(s3) == (s[0] as nat * 256 + s[1] as nat) * 256 + s[2] as nat);
    assert(be_value(s) == ((s[0] as nat * 256 + s[1] as nat) * 256 + s[2] as nat) * 256 + s[3] as nat);
}

proof fn lemma_u32_be(n: nat)
    requires
        n <= u32::MAX,
    ensures
        be_value(u32_be(n)) == n,
{
    let s = u32_be(n);
    lemma_be_value4(s);
    let x = n as u64;
    assert(x < 0x1_0000_0000 ==> (x / 16777216) * 16777216 + ((x / 65536) % 256) * 65536 + ((x / 256) % 256) * 256
        + x % 256 == x) by (bit_vector);
}

/// Reading an integer at `c` from bytes that agree with its wire form as far
/// as they go gives it back where they hold all of it, and `None` where they
/// end inside it.
proof fn lemma_decode_int_at(s: Seq<u8>, c: nat, n: nat)
    requires
        int_fits(n),
        c <= s.len(),
        forall|i: int| c <= i < s.len() && i < c + encode_int(n).len() ==> s[i] == encode_int(n)[i - c],
    ensures
        s.len() >= c + encode_int(n).len() ==> decode_int(s, c) == Some((n, c + encode_int(n).len())),
        s.len() < c + encode_int(n).len() ==> decode_int(s, c) is None,
{
    let e = encode_int(n);
    let b = be_bytes(n);
    let len = b.len();
    if c + 4 <= s.len() {
        assert(s.subrange(c as int, c + 4 as int) =~= u32_be(len)) by {
            assert forall|i: int| 0 <= i < 4 implies s.subrange(c as int, c + 4 as int)[i] == u32_be(len)[i] by {
                assert(s[c + i] == e[i]);
            }
        }
        lemma_u32_be(len);
        if c + 4 + len <= s.len() {
            assert(s.subrange(c + 4 as int, c + 4 + len as int) =~= b) by {
                assert forall|i: int| 0 <= i < len implies s.subrange(c + 4 as int, c + 4 + len as int)[i] == b[i] by {
                    assert(s[c + 4 + i] == e[4 + i]);
                }
            }
            lemma_be_bytes_value(n);
        }
    }
}

/// Decoding an encoded message gives the message back.
pub proof fn lemma_round_trip(m: MessageModel)
    requires
        encodable(m),
    ensures
        decode_spec(encode_spec(m)) == Some(m),
{
    lemma_prefix_decodes(m, encode_spec(m).len());
    assert(encode_spec(m).take(encode_spec(m).len() as int) =~= encode_spec(m));
}

/// Decoding any proper prefix of an encoded message fails.
pub proof fn lemma_truncation_rejected(m: MessageModel, k: nat)
    requires
        encodable(m),
        k < encode_spec(m).len(),
    ensures
        decode_spec(encode_spec(m).take(k as int)) is None,
{
    lemma_prefix_decodes(m, k);
}

/// The prefix of length `k` of an encoded message decodes to the message when
/// it is all of it, and to nothing otherwise.
proof fn lemma_prefix_decodes(m: MessageModel, k: nat)
    requires
        encodable(m),
        k <= encode_spec(m).len(),
    ensures
        k == encode_spec(m).len() ==> decode_spec(encode_spec(m).take(k as int)) == Some(m),
        k < encode_spec(m).len() ==> decode_spec(encode_spec(m).take(k as int)) is None,
{
    let full = encode_spec(m);
    let s = full.take(k as int);
    if k > 0 {
        assert(s[0] == full[0]);
        match m {
            MessageModel::ServerHello { p, g } => {
                let ep = encode_int(p);
                let eg = encode_int(g);
                assert(full =~= seq![1u8] + ep + eg);
                assert forall|i: int| 1 <= i < s.len() && i < 1 + ep.len() implies s[i] == ep[i - 1] by {
                    assert(full[i] == (seq![1u8] + ep)[i]);
                }
                lemma_decode_int_at(s, 1, p);
                if s.len() >= 1 + ep.len() {
                    let c = 1 + ep.len();
                    assert forall|i: int| c <= i < s.len() && i < c + eg.len() implies s[i] == eg[i - c] by {
                        assert(full[i] == eg[i - c]);
                    }
                    lemma_decode_int_at(s, c, g);
                }
            },
            MessageModel::ClientPublicKey { x } => {
                let ex = encode_int(x);
                assert forall|i: int| 1 <= i < s.len() && i < 1 + ex.len() implies s[i] == ex[i - 1] by {
                    assert(full[i] == ex[i - 1]);
                }
                lemma_decode_int_at(s, 1, x);
            },
            MessageModel::ServerPublicKey { y } => {
                let ey = encode_int(y);
                assert forall|i: int| 1 <= i < s.len() && i < 1 + ey.len() implies s[i] == ey[i - 1] by {
                    assert(full[i] == ey[i - 1]);
                }
                lemma_decode_int_at(s, 1, y);
            },
            _ => {},
        }
    }
}

/// Appends the wire form of `value` to `out`.
fn write_int(out: &mut Vec<u8>, value: &BigNat)
    requires
        int_fits(value@),
    ensures
        final(out)@ == old(out)@ + encode_int(value@),
{
    let mut b = value.to_bytes_be();
    let len = b.len() as u32;
    out.push((len / 16777216) as u8);
    out.push(((len / 65536) % 256) as u8);
    out.push(((len / 256) % 256) as u8);
    out.push((len % 256) as u8);
    out.append(&mut b);
    assert(out@ =~= old(out)@ + encode_int(value@));
}

/// Reads a length-prefixed integer at `cursor`: its value and the position
/// after it, or `None` where the bytes end first.
fn read_int(bytes: &[u8], cursor: usize) -> (r: Option<(BigNat, usize)>)
    requires
        cursor <= bytes@.len(),
    ensures
        r is None <==> decode_int(bytes@, cursor as nat) is None,
        r matches Some(q) ==> decode_int(bytes@, cursor as nat) == Some((q.0@, q.1 as nat)),
{
    if bytes.len() - cursor < 4 {
        return None;
    }
    let len: u32 = (bytes[cursor] as u32) * 16777216 + (bytes[cursor + 1] as u32) * 65536 + (bytes[cursor
        + 2] as u32) * 256 + (bytes[cursor + 3] as u32);
    proof {
        let f = bytes@.subrange(cursor as int, cursor + 4 as int);
        lemma_be_value4(f);
        assert(f[0] == bytes@[cursor as int] && f[1] == bytes@[cursor + 1] && f[2] == bytes@[cursor + 2]
            && f[3] == bytes@[cursor + 3]);
    }
    let start = cursor + 4;
    if (len as usize) > bytes.len() - start {
        return None;
    }
    let end = start + len as usize;
    let v = BigNat::from_bytes_be(slice_subrange(bytes, start, end));
    Some((v, end))
}

impl DHMessage {
    /// The wire form of the message: a tag byte (0 to 4, in the order of the
    /// variants), then its integers, each length-prefixed.
    pub fn to_bytes(&self) -> (r: Vec<u8>)
        requires
            encodable(self@),
        ensures
            r@ == encode_spec(self@),
    {
        match self {
            DHMessage::ClientHello => vec![0u8],
            DHMessage::ServerHello { p, g } => {
                let mut bytes = vec![1u8];
                write_int(&mut bytes, p);
                write_int(&mut bytes, g);
                assert(bytes@ =~= encode_spec(self@));
                bytes
            },
            DHMessage::ClientPublicKey { x } => {
                let mut bytes = vec![2u8];
                write_int(&mut bytes, x);
                bytes
            },
            DHMessage::ServerPublicKey { y } => {
                let mut bytes = vec![3u8];
                write_int(&mut bytes, y);
                bytes
            },
            DHMessage::Done => vec![4u8],
        }
    }

    /// Reads a message from the front of `bytes`; bytes after it are ignored.
    /// `None` for an empty input, an unknown tag, or an input that ends inside
    /// the message.
    pub fn from_bytes(bytes: &[u8]) -> (r: Option<DHMessage>)
        ensures
            r is None <==> decode_spec(bytes@) is None,
            r matches Some(m) ==> decode_spec(bytes@) == Some(m@),
    {
        if bytes.len() == 0 {
            return None;
        }
        let tag = bytes[0];
        if tag == 0 {
            Some(DHMessage::ClientHello)
        } else if tag == 1 {
            let (p, c) = match read_int(bytes, 1) {
                Some(q) => q,
                None => return None,
            };
            let (g, _) = match read_int(bytes, c) {
                Some(q) => q,
                None => return None,
            };
            Some(DHMessage::ServerHello { p, g })
        } else if tag == 2 {
            match read_int(bytes, 1) {
                Some((x, _)) => Some(DHMessage::ClientPublicKey { x }),
                None => None,
            }
        } else if tag == 3 {
            match read_int(bytes, 1) {
                Some((y, _)) => Some(DHMessage::ServerPublicKey { y }),
                None => None,
            }
        } else if tag == 4 {
            Some(DHMessage::Done)
        } else {
            None
        }
    }
}

impl PartialEq for DHMessage {
    fn eq(&self, other: &DHMessage) -> (r: bool) {
        match (self, other) {
            (DHMessage::ClientHello, DHMessage::ClientHello) => true,
            (DHMessage::ServerHello { p, g }, DHMessage::ServerHello { p: q, g: h }) => p.equals(q) && g.equals(h),
            (DHMessage::ClientPublicKey { x }, DHMessage::ClientPublicKey { x: z }) => x.equals(z),
            (DHMessage::ServerPublicKey { y }, DHMessage::ServerPublicKey { y: z }) => y.equals(z),
            (DHMessage::Done, DHMessage::Done) => true,
            _ => false,
        }
    }
}

impl vstd::std_specs::cmp::PartialEqSpecImpl for DHMessage {
    open spec fn obeys_eq_spec() -> bool {
        true
    }

    open spec fn eq_spec(&self, other: &DHMessage) -> bool {
        self@ == other@
    }
}

/// The bytes missing from `s` before it holds a whole integer at `c`; zero
/// once it does.
pub open spec fn int_missing(s: Seq<u8>, c: nat) -> nat {
    if s.len() < c + 4 {
        (c + 4 - s.len()) as nat
    } else {
        let len = be_value(s.subrange(c as int, c + 4 as int));
        if s.len() < c + 4 + len {
            (c + 4 + len - s.len()) as nat
        } else {
            0
        }
    }
}

/// The position after the integer at `c`, once its length prefix is there.
pub open spec fn int_end(s: Seq<u8>, c: nat) -> nat {
    c + 4 + be_value(s.subrange(c as int, c + 4 as int))
}

/// How many more bytes a reader that has received `s` must read before the
/// next step of framing: zero once `s` starts with a whole message, and
/// `None` for an unknown tag.
pub open spec fn missing_spec(s: Seq<u8>) -> Option<nat> {
    if s.len() == 0 {
        Some(1)
    } else if s[0] == 0 || s[0] == 4 {
        Some(0)
    } else if s[0] == 2 || s[0] == 3 {
        Some(int_missing(s, 1))
    } else if s[0] == 1 {
        if int_missing(s, 1) > 0 {
            Some(int_missing(s, 1))
        } else {
            Some(int_missing(s, int_end(s, 1)))
        }
    } else {
        None
    }
}

/// A reader stops at a whole message: where no byte is missing, decoding
/// succeeds.
pub proof fn lemma_framed_decodes(s: Seq<u8>)
    requires
        missing_spec(s) == Some(0nat),
    ensures
        decode_spec(s) is Some,
{
}

/// The bytes missing before an integer at `cursor` is whole.
fn int_missing_exec(bytes: &[u8], cursor: usize) -> (r: usize)
    requires
        cursor <= bytes@.len(),
    ensures
        r == int_missing(bytes@, cursor as nat),
        r == 0 ==> cursor + 4 <= bytes@.len() && int_end(bytes@, cursor as nat) <= bytes@.len(),
{
    let have = bytes.len() - cursor;
    if have < 4 {
        return 4 - have;
    }
    let len: u32 = (bytes[cursor] as u32) * 16777216 + (bytes[cursor + 1] as u32) * 65536 + (bytes[cursor
        + 2] as u32) * 256 + (bytes[cursor + 3] as u32);
    proof {
        let f = bytes@.subrange(cursor as int, cursor + 4 as int);
        lemma_be_value4(f);
        assert(f[0] == bytes@[cursor as int] && f[1] == bytes@[cursor + 1] && f[2] == bytes@[cursor + 2]
            && f[3] == bytes@[cursor + 3]);
    }
    let body = have - 4;
    if (len as usize) > body {
        (len as usize) - body
    } else {
        0
    }
}

impl DHMessage {
    /// How many more bytes a reader that has received `prefix` must read
    /// before framing can go on: zero once `prefix` starts with a whole
    /// message, `None` for an unknown tag. Reading that many bytes and asking
    /// again frames one message.
    pub fn missing_len(prefix: &[u8]) -> (r: Option<usize>)
        ensures
            r matches Some(k) ==> missing_spec(prefix@) == Some(k as nat),
            r is None <==> missing_spec(prefix@) is None,
    {
        if prefix.len() == 0 {
            return Some(1);
        }
        let tag = prefix[0];
        if tag == 0 || tag == 4 {
            Some(0)
        } else if tag == 2 || tag == 3 {
            Some(int_missing_exec(prefix, 1))
        } else if tag == 1 {
            let first = int_missing_exec(prefix, 1);
            if first > 0 {
                return Some(first);
            }
            let len: u32 = (prefix[1] as u32) * 16777216 + (prefix[2] as u32) * 65536 + (prefix[3] as u32) * 256
                + (prefix[4] as u32);
            proof {
                let f = prefix@.subrange(1, 5);
                lemma_be_value4(f);
                assert(f[0] == prefix@[1] && f[1] == prefix@[2] && f[2] == prefix@[3] && f[3] == prefix@[4]);
            }
            let next = 5 + len as usize;
            Some(int_missing_exec(prefix, next))
        } else {
            None
        }
    }
}

} // verus!
