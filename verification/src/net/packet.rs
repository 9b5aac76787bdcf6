//! Packet format, protocol version 1.
//!
//! A fixed header of 82 bytes, the payload, and an Ed25519 signature of 64
//! bytes over both:
//!
//! | bytes    | field                              |
//! |----------|------------------------------------|
//! | 0..4     | magic `KOKN`                       |
//! | 4        | version                            |
//! | 5        | packet type                        |
//! | 6        | flags                              |
//! | 7..10    | reserved, zero                     |
//! | 10..14   | sequence number, big-endian        |
//! | 14..18   | payload length, big-endian         |
//! | 18..50   | sender ID                          |
//! | 50..82   | recipient ID                       |
//!
//! An encrypted payload is an envelope: ephemeral public key (32), nonce
//! (12), ciphertext and tag.

use vstd::prelude::*;

use crate::bytes::{
    append, array_at, be32, be32_at, copy_of, cut, get_be32, lemma_be32, lemma_be32_at, lemma_be_at_slice, push_be32,
    same_bytes,
};
use crate::crypto::cipher::{Sealed, SealedView};
use crate::crypto::primitives;
use crate::text::{decimal, push_decimal};

verus! {

/// `KOKN`
pub const MAGIC: [u8; 4] = [75, 79, 75, 78];

pub const VERSION: u8 = 1;

pub const HEADER_LEN: usize = 82;

pub const SIG_LEN: usize = 64;

/// Flag: the payload is encrypted under an ephemeral key.
pub const FLAG_EPHEMERAL: u8 = 1;

/// Flag: the packet is an acknowledgement.
pub const FLAG_ACK: u8 = 2;

/// Length of an envelope around an empty plaintext.
pub const ENVELOPE_MIN: usize = 60;

#[derive(Clone, Copy, Debug, PartialEq, Eq, Structural)]
pub enum PktType {
    Msg,
    MsgAck,
    Ping,
    Pong,
    AddrQuery,
    AddrAnswer,
    IpChanged,
    IpChangedAck,
    Gossip,
    PushIp,
}

impl PktType {
    /// The code of a packet type on the wire.
    pub open spec fn code(self) -> u8 {
        match self {
            PktType::Msg => 0x01,
            PktType::MsgAck => 0x02,
            PktType::Ping => 0x03,
            PktType::Pong => 0x04,
            PktType::AddrQuery => 0x05,
            PktType::AddrAnswer => 0x06,
            PktType::IpChanged => 0x07,
            PktType::IpChangedAck => 0x08,
            PktType::Gossip => 0x09,
            PktType::PushIp => 0x0a,
        }
    }

    pub fn to_u8(self) -> (r: u8)
        ensures
            r == self.code(),
    {
        match self {
            PktType::Msg => 0x01,
            PktType::MsgAck => 0x02,
            PktType::Ping => 0x03,
            PktType::Pong => 0x04,
            PktType::AddrQuery => 0x05,
            PktType::AddrAnswer => 0x06,
            PktType::IpChanged => 0x07,
            PktType::IpChangedAck => 0x08,
            PktType::Gossip => 0x09,
            PktType::PushIp => 0x0a,
        }
    }

    /// The packet type with a given code.
    pub fn from_u8(v: u8) -> (r: Option<PktType>)
        ensures
            r == type_of_code(v),
    {
        match v {
            0x01 => Some(PktType::Msg),
            0x02 => Some(PktType::MsgAck),
            0x03 => Some(PktType::Ping),
            0x04 => Some(PktType::Pong),
            0x05 => Some(PktType::AddrQuery),
            0x06 => Some(PktType::AddrAnswer),
            0x07 => Some(PktType::IpChanged),
            0x08 => Some(PktType::IpChangedAck),
            0x09 => Some(PktType::Gossip),
            0x0a => Some(PktType::PushIp),
            _ => None,
        }
    }
}

/// The packet type with a given code.
pub open spec fn type_of_code(v: u8) -> Option<PktType> {
    if v == 0x01 {
        Some(PktType::Msg)
    } else if v == 0x02 {
        Some(PktType::MsgAck)
    } else if v == 0x03 {
        Some(PktType::Ping)
    } else if v == 0x04 {
        Some(PktType::Pong)
    } else if v == 0x05 {
        Some(PktType::AddrQuery)
    } else if v == 0x06 {
        Some(PktType::AddrAnswer)
    } else if v == 0x07 {
        Some(PktType::IpChanged)
    } else if v == 0x08 {
        Some(PktType::IpChangedAck)
    } else if v == 0x09 {
        Some(PktType::Gossip)
    } else if v == 0x0a {
        Some(PktType::PushIp)
    } else {
        None
    }
}

pub struct Packet {
    pub ptype: PktType,
    pub flags: u8,
    pub seq: u32,
    pub sender_id: [u8; 32],
    pub recipient_id: [u8; 32],
    pub payload: Vec<u8>,
}

/// A packet as it came in, the signature not yet checked.
pub struct Decoded {
    pub packet: Packet,
    pub signature: [u8; 64],
}

/// The contents of a [`Packet`].
#[verifier::ext_equal]
pub struct PacketView {
    pub ptype: PktType,
    pub flags: u8,
    pub seq: u32,
    pub sender_id: Seq<u8>,
    pub recipient_id: Seq<u8>,
    pub payload: Seq<u8>,
}

/// The contents of a [`Decoded`].
#[verifier::ext_equal]
pub struct DecodedView {
    pub packet: PacketView,
    pub signature: Seq<u8>,
}

impl View for Packet {
    type V = PacketView;

    open spec fn view(&self) -> PacketView {
        PacketView {
            ptype: self.ptype,
            flags: self.flags,
            seq: self.seq,
            sender_id: self.sender_id@,
            recipient_id: self.recipient_id@,
            payload: self.payload@,
        }
    }
}

impl View for Decoded {
    type V = DecodedView;

    open spec fn view(&self) -> DecodedView {
        DecodedView { packet: self.packet@, signature: self.signature@ }
    }
}

/// Why bytes are not a packet, or a packet is not genuine.
#[derive(Clone, Copy, Debug, PartialEq, Eq, Structural)]
pub enum PacketError {
    TooShort,
    Magic,
    Version,
    UnknownType(u8),
    Overflow,
    Length,
    /// The reserved bytes of the header are not zero.
    Reserved,
    /// The sender ID is no public key.
    SenderKey,
    Signature,
}

impl PacketError {
    pub open spec fn text(self) -> Seq<char> {
        match self {
            PacketError::TooShort => "包过短"@,
            PacketError::Magic => "magic 不匹配"@,
            PacketError::Version => "协议版本不匹配"@,
            PacketError::UnknownType(v) => "未知包类型 "@ + decimal(v as nat),
            PacketError::Overflow => "包长度溢出"@,
            PacketError::Length => "包长度不匹配"@,
            PacketError::Reserved => "保留字段必须为零"@,
            PacketError::SenderKey => "发送者 ID 不是合法公钥"@,
            PacketError::Signature => "签名校验失败"@,
        }
    }

    pub fn message(&self) -> (r: String)
        ensures
            r@ == self.text(),
    {
        match self {
            PacketError::TooShort => "包过短".to_owned(),
            PacketError::Magic => "magic 不匹配".to_owned(),
            PacketError::Version => "协议版本不匹配".to_owned(),
            PacketError::UnknownType(v) => {
                let mut s = "未知包类型 ".to_owned();
                push_decimal(&mut s, *v as u64);
                s
            },
            PacketError::Overflow => "包长度溢出".to_owned(),
            PacketError::Length => "包长度不匹配".to_owned(),
            PacketError::Reserved => "保留字段必须为零".to_owned(),
            PacketError::SenderKey => "发送者 ID 不是合法公钥".to_owned(),
            PacketError::Signature => "签名校验失败".to_owned(),
        }
    }
}

/// Header and payload, which the signature covers.
pub open spec fn unsigned_bytes(p: PacketView) -> Seq<u8> {
    MAGIC@ + seq![VERSION, p.ptype.code(), p.flags, 0u8, 0u8, 0u8] + be32(p.seq) + be32(
        p.payload.len() as u32,
    ) + p.sender_id + p.recipient_id + p.payload
}

/// A packet signed with a seed.
pub open spec fn signed_bytes(p: PacketView, seed: Seq<u8>) -> Seq<u8> {
    unsigned_bytes(p) + primitives::ed25519_signature(seed, unsigned_bytes(p))
}

/// What [`Packet::decode`] makes of bytes.
pub open spec fn decoded(buf: Seq<u8>) -> Result<DecodedView, PacketError> {
    if buf.len() < HEADER_LEN + SIG_LEN {
        Err(PacketError::TooShort)
    } else if buf.subrange(0, 4) != MAGIC@ {
        Err(PacketError::Magic)
    } else if buf[4] != VERSION {
        Err(PacketError::Version)
    } else {
        let plen = be32_at(buf, 14) as int;
        match type_of_code(buf[5]) {
            None => Err(PacketError::UnknownType(buf[5])),
            Some(ptype) => if HEADER_LEN + plen + SIG_LEN > usize::MAX {
                Err(PacketError::Overflow)
            } else if buf.len() != HEADER_LEN + plen + SIG_LEN {
                Err(PacketError::Length)
            } else if buf.subrange(7, 10) != seq![0u8, 0u8, 0u8] {
                Err(PacketError::Reserved)
            } else {
                Ok(
                    DecodedView {
                        packet: PacketView {
                            ptype,
                            flags: buf[6],
                            seq: be32_at(buf, 10),
                            sender_id: buf.subrange(18, 50),
                            recipient_id: buf.subrange(50, 82),
                            payload: buf.subrange(82, 82 + plen),
                        },
                        signature: buf.subrange(82 + plen, 82 + plen + 64),
                    },
                )
            },
        }
    }
}

impl Clone for Packet {
    fn clone(&self) -> (r: Self)
        ensures
            r@ == self@,
    {
        Packet {
            ptype: self.ptype,
            flags: self.flags,
            seq: self.seq,
            sender_id: self.sender_id,
            recipient_id: self.recipient_id,
            payload: copy_of(&self.payload),
        }
    }
}

impl Packet {
    /// Header and payload without the signature.
    pub fn build_unsigned(&self) -> (out: Vec<u8>)
        ensures
            out@ == unsigned_bytes(self@),
    {
        let mut out: Vec<u8> = Vec::new();
        append(&mut out, &MAGIC);
        out.push(VERSION);
        out.push(self.ptype.to_u8());
        out.push(self.flags);
        out.push(0);
        out.push(0);
        out.push(0);
        push_be32(&mut out, self.seq);
        push_be32(&mut out, self.payload.len() as u32);
        append(&mut out, &self.sender_id);
        append(&mut out, &self.recipient_id);
        append(&mut out, &self.payload);
        assert(out@ =~= unsigned_bytes(self@));
        out
    }

    /// The packet signed with the seed of an identity.
    pub fn encode(&self, seed: &[u8; 32]) -> (out: Vec<u8>)
        ensures
            out@ == signed_bytes(self@, seed@),
            out@.len() == unsigned_bytes(self@).len() + SIG_LEN,
    {
        let mut out = self.build_unsigned();
        let sig: [u8; 64] = primitives::ed25519_sign(seed, &out);
        append(&mut out, &sig);
        out
    }

    /// Takes a packet apart; the signature is not checked.
    pub fn decode(buf: &[u8]) -> (r: Result<Decoded, PacketError>)
        ensures
            match decoded(buf@) {
                Ok(d) => r matches Ok(x) && x@ == d,
                Err(e) => r matches Err(x) && x == e,
            },
    {
        if buf.len() < HEADER_LEN + SIG_LEN {
            return Err(PacketError::TooShort);
        }
        let magic = cut(buf, 0, 4);
        if !same_bytes(&magic, &MAGIC) {
            return Err(PacketError::Magic);
        }
        if buf[4] != VERSION {
            return Err(PacketError::Version);
        }
        let ptype = match PktType::from_u8(buf[5]) {
            Some(t) => t,
            None => {
                return Err(PacketError::UnknownType(buf[5]));
            },
        };
        let plen: usize = get_be32(buf, 14) as usize;
        if plen > usize::MAX - (HEADER_LEN + SIG_LEN) {
            return Err(PacketError::Overflow);
        }
        if buf.len() != HEADER_LEN + plen + SIG_LEN {
            return Err(PacketError::Length);
        }
        if buf[7] != 0 || buf[8] != 0 || buf[9] != 0 {
            assert(buf@.subrange(7, 10)[0] == buf@[7]);
            assert(buf@.subrange(7, 10)[1] == buf@[8]);
            assert(buf@.subrange(7, 10)[2] == buf@[9]);
            return Err(PacketError::Reserved);
        }
        assert(buf@.subrange(7, 10) =~= seq![0u8, 0u8, 0u8]);
        Ok(
            Decoded {
                packet: Packet {
                    ptype,
                    flags: buf[6],
                    seq: get_be32(buf, 10),
                    sender_id: array_at::<32>(buf, 18),
                    recipient_id: array_at::<32>(buf, 50),
                    payload: cut(buf, 82, 82 + plen),
                },
                signature: array_at::<64>(buf, 82 + plen),
            },
        )
    }

    /// Checks the signature against the sender ID. A packet signed with the
    /// seed of its sender passes.
    pub fn verify(dec: &Decoded) -> (r: Result<(), PacketError>)
        ensures
            r == verified(dec@),
            forall|seed: Seq<u8>|
                seed.len() == 32 && dec@.packet.sender_id == #[trigger] primitives::ed25519_public(
                    seed,
                ) && dec@.signature == primitives::ed25519_signature(
                    seed,
                    unsigned_bytes(dec@.packet),
                ) ==> r is Ok,
    {
        if !primitives::ed25519_key_is_valid(&dec.packet.sender_id) {
            return Err(PacketError::SenderKey);
        }
        let covered = dec.packet.build_unsigned();
        if primitives::ed25519_verify(&dec.packet.sender_id, &covered, &dec.signature) {
            Ok(())
        } else {
            Err(PacketError::Signature)
        }
    }
}

/// What [`Packet::verify`] makes of a decoded packet.
pub open spec fn verified(d: DecodedView) -> Result<(), PacketError> {
    if !primitives::ed25519_is_key(d.packet.sender_id) {
        Err(PacketError::SenderKey)
    } else if !primitives::ed25519_verifies(
        d.packet.sender_id,
        unsigned_bytes(d.packet),
        d.signature,
    ) {
        Err(PacketError::Signature)
    } else {
        Ok(())
    }
}

/// Header and payload make up the signed part.
pub proof fn lemma_unsigned_len(p: PacketView)
    requires
        p.sender_id.len() == 32,
        p.recipient_id.len() == 32,
    ensures
        unsigned_bytes(p).len() == HEADER_LEN + p.payload.len(),
{
}

/// A packet followed by a signature comes apart into that packet and that
/// signature.
pub proof fn law_packet_round_trip(p: PacketView, sig: Seq<u8>)
    requires
        p.sender_id.len() == 32,
        p.recipient_id.len() == 32,
        p.payload.len() <= u32::MAX,
        HEADER_LEN + p.payload.len() + SIG_LEN <= usize::MAX,
        sig.len() == SIG_LEN,
    ensures
        decoded(unsigned_bytes(p) + sig) == Ok::<DecodedView, PacketError>(
            DecodedView { packet: p, signature: sig },
        ),
        unsigned_bytes(p).len() == HEADER_LEN + p.payload.len(),
{
    let b = unsigned_bytes(p) + sig;
    let n = p.payload.len() as int;
    lemma_be32(p.seq);
    lemma_be32(n as u32);
    lemma_be_at_slice(b, 10);
    lemma_be_at_slice(b, 14);
    assert(b.subrange(0, 4) =~= MAGIC@);
    assert(b.subrange(7, 10) =~= seq![0u8, 0u8, 0u8]);
    assert(b.subrange(10, 14) =~= be32(p.seq));
    assert(b.subrange(14, 18) =~= be32(n as u32));
    assert(b.subrange(18, 50) =~= p.sender_id);
    assert(b.subrange(50, 82) =~= p.recipient_id);
    assert(b.subrange(82, 82 + n) =~= p.payload);
    assert(b.subrange(82 + n, 82 + n + 64) =~= sig);
}

/// A decoded packet has no other bytes than those that its signature covers
/// and the signature itself: whatever is changed in a datagram is changed in
/// what is checked.
pub proof fn law_signature_covers_all(b: Seq<u8>)
    ensures
        decoded(b) matches Ok(d) ==> unsigned_bytes(d.packet) + d.signature == b,
{
    match decoded(b) {
        Ok(d) => {
            let n = be32_at(b, 14) as int;
            lemma_be32_at(b, 10);
            lemma_be32_at(b, 14);
            let head = MAGIC@ + seq![VERSION, d.packet.ptype.code(), d.packet.flags, 0u8, 0u8, 0u8];
            assert(b.subrange(0, 10) =~= head) by {
                assert(b.subrange(0, 4) == MAGIC@);
                assert(b.subrange(7, 10) == seq![0u8, 0u8, 0u8]);
                assert forall|i: int| 0 <= i < 10 implies b[i] == #[trigger] head[i] by {
                    if i < 4 {
                        assert(b.subrange(0, 4)[i] == b[i]);
                    } else if i >= 7 {
                        assert(b.subrange(7, 10)[i - 7] == b[i]);
                    }
                }
            }
            let all = unsigned_bytes(d.packet) + d.signature;
            assert(all =~= b.subrange(0, 10) + b.subrange(10, 14) + b.subrange(14, 18)
                + b.subrange(18, 50) + b.subrange(50, 82) + b.subrange(82, 82 + n) + b.subrange(
                82 + n,
                82 + n + 64,
            ));
            assert(all =~= b);
        },
        Err(_) => {},
    }
}

/// The bytes of an envelope.
pub open spec fn envelope(s: SealedView) -> Seq<u8> {
    s.eph_pub + s.nonce + s.ciphertext
}

/// The sealed message in an envelope.
pub open spec fn envelope_of(buf: Seq<u8>) -> Option<SealedView> {
    if buf.len() < ENVELOPE_MIN {
        None
    } else {
        Some(
            SealedView {
                eph_pub: buf.subrange(0, 32),
                nonce: buf.subrange(32, 44),
                ciphertext: buf.skip(44),
            },
        )
    }
}

/// Puts a sealed message into an envelope.
pub fn envelope_close(sealed: &Sealed) -> (out: Vec<u8>)
    ensures
        out@ == envelope(sealed@),
{
    let mut out: Vec<u8> = Vec::new();
    append(&mut out, &sealed.eph_pub);
    append(&mut out, &sealed.nonce);
    append(&mut out, &sealed.ciphertext);
    assert(out@ =~= envelope(sealed@));
    out
}

/// An envelope shorter than its fixed parts.
#[derive(Clone, Copy, Debug, PartialEq, Eq, Structural)]
pub struct EnvelopeTooShort;

/// Takes a sealed message out of an envelope.
pub fn envelope_open(buf: &[u8]) -> (r: Result<Sealed, EnvelopeTooShort>)
    ensures
        r is Ok <==> envelope_of(buf@) is Some,
        r matches Ok(s) ==> envelope_of(buf@) == Some(s@),
{
    if buf.len() < ENVELOPE_MIN {
        return Err(EnvelopeTooShort);
    }
    let ciphertext = cut(buf, 44, buf.len());
    assert(ciphertext@ =~= buf@.skip(44));
    Ok(Sealed { eph_pub: array_at::<32>(buf, 0), nonce: array_at::<12>(buf, 32), ciphertext })
}

/// An envelope gives back the sealed message that was put into it.
pub proof fn law_envelope_round_trip(s: SealedView)
    requires
        s.eph_pub.len() == 32,
        s.nonce.len() == 12,
        s.ciphertext.len() >= primitives::GCM_TAG_LEN,
    ensures
        envelope_of(envelope(s)) == Some(s),
{
    let b = envelope(s);
    assert(b.subrange(0, 32) =~= s.eph_pub);
    assert(b.subrange(32, 44) =~= s.nonce);
    assert(b.skip(44) =~= s.ciphertext);
}

} // verus!
