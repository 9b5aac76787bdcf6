use ed25519_dalek::{Signature, SigningKey, Verifier};
use kokonachat::crypto::cipher::Sealed;
use kokonachat::net::packet::{
    envelope_close, envelope_open, Decoded, Packet, PacketError, PktType, FLAG_ACK, FLAG_EPHEMERAL,
    HEADER_LEN, MAGIC, SIG_LEN,
};
use kokonachat::net::retransmit::{PendingPacket, Retransmitter, RETRY_INTERVAL};
use kokonachat::net::session::{PeerSession, SessionTable, MAX_SEEN};

fn packet(payload: Vec<u8>) -> Packet {
    let sk = SigningKey::from_bytes(&[9u8; 32]);
    Packet {
        ptype: PktType::Msg,
        flags: FLAG_EPHEMERAL,
        seq: 42,
        sender_id: sk.verifying_key().to_bytes(),
        recipient_id: [5u8; 32],
        payload,
    }
}

#[test]
fn encode_decode_verify() {
    let pkt = packet(vec![1, 2, 3, 4]);
    let bytes = pkt.encode(&[9u8; 32]);
    let dec = Packet::decode(&bytes).ok().unwrap();
    assert_eq!(dec.packet.ptype, PktType::Msg);
    assert_eq!(dec.packet.seq, 42);
    assert_eq!(dec.packet.payload, vec![1, 2, 3, 4]);
    Packet::verify(&dec).unwrap();

    let bad = packet(vec![9, 9]);
    let bad_dec = Decoded { packet: bad, signature: dec.signature };
    assert!(Packet::verify(&bad_dec).is_err());
}

#[test]
fn packet_layout() {
    let bytes = packet(vec![0xaa, 0xbb]).encode(&[9u8; 32]);
    assert_eq!(bytes.len(), HEADER_LEN + 2 + SIG_LEN);
    assert_eq!(&bytes[0..4], b"KOKN");
    assert_eq!(&MAGIC, b"KOKN");
    assert_eq!(bytes[4], 1);
    assert_eq!(bytes[5], 1);
    assert_eq!(bytes[6], FLAG_EPHEMERAL);
    assert_eq!(&bytes[7..10], &[0, 0, 0]);
    assert_eq!(&bytes[10..14], &[0, 0, 0, 42]);
    assert_eq!(&bytes[14..18], &[0, 0, 0, 2]);
    assert_eq!(&bytes[50..82], &[5u8; 32]);
    assert_eq!(&bytes[82..84], &[0xaa, 0xbb]);
    let key = SigningKey::from_bytes(&[9u8; 32]).verifying_key();
    let sig = Signature::from_slice(&bytes[84..148]).unwrap();
    assert!(key.verify(&bytes[..84], &sig).is_ok());
    assert_eq!(FLAG_ACK, 2);
}

#[test]
fn every_packet_error() {
    let good = packet(vec![1]).encode(&[9u8; 32]);
    assert_eq!(Packet::decode(&good[..100]).err(), Some(PacketError::TooShort));
    let mut b = good.clone();
    b[0] = 0;
    assert_eq!(Packet::decode(&b).err(), Some(PacketError::Magic));
    let mut b = good.clone();
    b[4] = 2;
    assert_eq!(Packet::decode(&b).err(), Some(PacketError::Version));
    let mut b = good.clone();
    b[5] = 0x0b;
    assert_eq!(Packet::decode(&b).err(), Some(PacketError::UnknownType(0x0b)));
    let mut b = good.clone();
    b[17] = 2;
    assert_eq!(Packet::decode(&b).err(), Some(PacketError::Length));
    let mut b = good.clone();
    let last = b.len() - 1;
    b[last] ^= 1;
    let dec = Packet::decode(&b).ok().unwrap();
    assert!(Packet::verify(&dec).is_err());
}

#[test]
fn packet_types() {
    for v in 0u8..=255 {
        match PktType::from_u8(v) {
            Some(t) => {
                assert!((1..=10).contains(&v));
                assert_eq!(t.to_u8(), v);
            }
            None => assert!(v == 0 || v > 10),
        }
    }
    assert_eq!(PktType::from_u8(0x0a), Some(PktType::PushIp));
}

#[test]
fn envelopes() {
    let s = Sealed { eph_pub: [1; 32], nonce: [2; 12], ciphertext: vec![3; 16] };
    let b = envelope_close(&s);
    assert_eq!(b.len(), 60);
    let t = envelope_open(&b).ok().unwrap();
    assert_eq!(t.eph_pub, [1; 32]);
    assert_eq!(t.nonce, [2; 12]);
    assert_eq!(t.ciphertext, vec![3; 16]);
    assert!(envelope_open(&b[..59]).is_err());
}

fn pending(seq: u32, next_retry: u64) -> PendingPacket {
    PendingPacket { bytes: vec![1], recipient: [0u8; 32], seq, attempts: 0, next_retry }
}

#[test]
fn retry_then_fail() {
    let mut r = Retransmitter::default();
    let now = 1_000_000u64;
    r.insert(pending(1, now + RETRY_INTERVAL));

    let (resend, failed) = r.poll_retries(now + RETRY_INTERVAL);
    assert_eq!(resend.len(), 1);
    assert_eq!(resend[0].attempts, 1);
    assert!(failed.is_empty());
    assert!(!r.is_empty());

    let (resend, failed) = r.poll_retries(now + RETRY_INTERVAL * 2);
    assert_eq!(resend.len(), 1);
    assert_eq!(resend[0].attempts, 2);
    assert!(failed.is_empty());

    let (resend, failed) = r.poll_retries(now + RETRY_INTERVAL * 3);
    assert_eq!(resend.len(), 1);
    assert_eq!(resend[0].attempts, 3);
    assert!(failed.is_empty());

    let (resend, failed) = r.poll_retries(now + RETRY_INTERVAL * 4);
    assert!(resend.is_empty());
    assert_eq!(failed.len(), 1);
    assert_eq!(failed[0].seq, 1);
    assert!(r.is_empty());

    let mut r2 = Retransmitter::default();
    r2.insert(PendingPacket {
        bytes: vec![2],
        recipient: [0u8; 32],
        seq: 2,
        attempts: 0,
        next_retry: now + RETRY_INTERVAL,
    });
    assert!(r2.ack(&[0u8; 32], 2).is_some());
    assert!(r2.is_empty());
    assert!(r2.ack(&[0u8; 32], 99).is_none());
}

#[test]
fn nothing_is_sent_again_too_early() {
    let mut r = Retransmitter::default();
    r.insert(pending(1, 2000));
    let (resend, failed) = r.poll_retries(1999);
    assert!(resend.is_empty() && failed.is_empty());
    assert_eq!(r.next_deadline(0), Some(2000));
    assert_eq!(r.next_deadline(2000), None);
    r.insert(pending(2, 1500));
    assert_eq!(r.next_deadline(0), Some(1500));
    let (resend, failed) = r.poll_retries(1999);
    assert_eq!(resend.len(), 1);
    assert_eq!(resend[0].next_retry, 1999 + RETRY_INTERVAL);
    assert!(failed.is_empty());
    assert_eq!(RETRY_INTERVAL, 2000);
}

#[test]
fn dedup() {
    let mut s = PeerSession::new();
    assert!(!s.is_seen(1));
    s.mark_seen(1);
    assert!(s.is_seen(1));
    assert!(!s.is_seen(2));
}

#[test]
fn old_numbers_are_forgotten() {
    let mut s = PeerSession::new();
    for i in 0..MAX_SEEN as u32 {
        s.mark_seen(i);
    }
    assert!(s.is_seen(0));
    s.mark_seen(0);
    assert_eq!(s.seen.len(), MAX_SEEN);
    s.mark_seen(1_000_000);
    assert_eq!(s.seen.len(), MAX_SEEN);
    assert!(!s.is_seen(0));
    assert!(s.is_seen(1));
    assert!(s.is_seen(1_000_000));
}

#[test]
fn sessions_are_per_peer() {
    let mut t = SessionTable::default();
    t.get_mut(&[1; 32]).mark_seen(7);
    assert!(t.get_mut(&[1; 32]).is_seen(7));
    assert!(!t.get_mut(&[2; 32]).is_seen(7));
}

#[test]
fn the_signature_covers_every_byte() {
    let bytes = packet(vec![1, 2, 3, 4]).encode(&[9u8; 32]);
    for i in 0..bytes.len() {
        let mut b = bytes.clone();
        b[i] ^= 1;
        let passes = match Packet::decode(&b) {
            Ok(d) => Packet::verify(&d).is_ok(),
            Err(_) => false,
        };
        assert!(!passes, "byte {i}");
    }
    for i in 7..10 {
        let mut b = bytes.clone();
        b[i] = 1;
        assert_eq!(Packet::decode(&b).err(), Some(PacketError::Reserved));
    }
    assert_eq!(PacketError::Reserved.message(), "保留字段必须为零");
    let d = Packet::decode(&bytes).ok().unwrap();
    let mut again = d.packet.build_unsigned();
    again.extend_from_slice(&d.signature);
    assert_eq!(again, bytes);
}
