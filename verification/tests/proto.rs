use kokonachat::proto::addressing::{
    decode_addr_answer, decode_addr_query, decode_gossip, decode_ip_changed, decode_ip_changed_ack,
    decode_ips, decode_push_ip, encode_addr_answer, encode_addr_query, encode_gossip,
    encode_ip_changed, encode_ip_changed_ack, encode_ips, encode_push_ip,
};
use kokonachat::proto::{
    decode_ack_inner, decode_attach_chunk, decode_msg_inner, encode_ack_inner, encode_attach_chunk,
    encode_msg_inner, encode_msg_inner_at, AttachChunk, ProtoError, MSG_ATTACH, MSG_TEXT,
};

#[test]
fn query_roundtrip() {
    let target = [3u8; 32];
    let nonce = [7u8; 16];
    let buf = encode_addr_query(&target, &nonce, 42);
    let q = decode_addr_query(&buf).ok().unwrap();
    assert_eq!(q.target_id, target);
    assert_eq!(q.nonce_q, nonce);
    assert_eq!(q.fail_seq, 42);
}

#[test]
fn answer_roundtrip() {
    let target = [4u8; 32];
    let nonce = [8u8; 16];
    let ips = vec!["2001:db8::1".to_string(), "1.2.3.4".to_string()];
    let buf = encode_addr_answer(&target, &nonce, &ips);
    let a = decode_addr_answer(&buf).ok().unwrap();
    assert!(a.hit);
    assert_eq!(a.ips, ips);

    let buf_miss = encode_addr_answer(&target, &nonce, &[]);
    let a = decode_addr_answer(&buf_miss).ok().unwrap();
    assert!(!a.hit);
    assert!(a.ips.is_empty());
}

#[test]
fn ip_changed_roundtrip() {
    let ips = vec!["240e::1".to_string(), "10.0.0.2".to_string()];
    let buf = encode_ip_changed(99123, &ips);
    let (probe_id, got) = decode_ip_changed(&buf).ok().unwrap();
    assert_eq!(probe_id, 99123);
    assert_eq!(got, ips);

    let ack = encode_ip_changed_ack(99123);
    assert_eq!(decode_ip_changed_ack(&ack).unwrap(), 99123);
}

#[test]
fn gossip_push_roundtrip() {
    let victims = vec![[1u8; 32], [2u8; 32]];
    let ips = vec!["240e::2".to_string()];
    let g = encode_gossip(&victims, &ips);
    let (vs, got_ips) = decode_gossip(&g).ok().unwrap();
    assert_eq!(vs, victims);
    assert_eq!(got_ips, ips);

    let p = encode_push_ip(&[3u8; 32], &ips);
    let (src, got) = decode_push_ip(&p).ok().unwrap();
    assert_eq!(src, [3u8; 32]);
    assert_eq!(got, ips);
}

#[test]
fn lists_with_ports_survive() {
    let ips = vec!["[240e::1]:1212".to_string(), "10.0.0.2:9999".to_string()];
    let (_, got) = decode_ip_changed(&encode_ip_changed(1, &ips)).ok().unwrap();
    assert_eq!(got, ips);
    let a = decode_addr_answer(&encode_addr_answer(&[1; 32], &[2; 16], &ips)).ok().unwrap();
    assert_eq!(a.ips, ips);
    assert_eq!(a.target_id, [1; 32]);
    assert_eq!(a.nonce_q, [2; 16]);
}

#[test]
fn entries_that_are_no_addresses_are_left_out() {
    let ips = vec!["nonsense".to_string(), "1.2.3.4".to_string()];
    let buf = encode_ips(&ips);
    let (got, end) = decode_ips(&buf, 0).ok().unwrap();
    assert_eq!(got, vec!["1.2.3.4".to_string()]);
    assert_eq!(end, buf.len());
}

#[test]
fn message_roundtrip_and_layout() {
    let b = encode_msg_inner_at("héllo 心夏", 0x0102030405060708);
    assert_eq!(b[0], MSG_TEXT);
    assert_eq!(&b[1..9], &[1, 2, 3, 4, 5, 6, 7, 8]);
    assert_eq!(&b[9..13], &[0, 0, 0, 13]);
    let (kind, ts, text) = decode_msg_inner(&b).ok().unwrap();
    assert_eq!((kind, ts, text.as_str()), (MSG_TEXT, 0x0102030405060708, "héllo 心夏"));
    let now = encode_msg_inner("x");
    let (_, ts, _) = decode_msg_inner(&now).ok().unwrap();
    assert!(ts > 1_600_000_000_000);
}

#[test]
fn bytes_that_are_not_utf8_are_replaced() {
    let mut b = encode_msg_inner_at("ab", 0);
    let n = b.len();
    b[n - 1] = 0xff;
    let (_, _, text) = decode_msg_inner(&b).ok().unwrap();
    assert_eq!(text, "a\u{fffd}");
}

#[test]
fn chunk_roundtrip() {
    let c = AttachChunk {
        transfer: [6; 16],
        kind: 3,
        index: 2,
        total: 5,
        total_size: 12000,
        name: "文件.bin".to_string(),
        data: vec![9; 2400],
    };
    let b = encode_attach_chunk(&c, 77);
    assert_eq!(b[0], MSG_ATTACH);
    let (ts, d) = decode_attach_chunk(&b).ok().unwrap();
    assert_eq!(ts, 77);
    assert_eq!(d.transfer, c.transfer);
    assert_eq!((d.kind, d.index, d.total, d.total_size), (3, 2, 5, 12000));
    assert_eq!(d.name, c.name);
    assert_eq!(d.data, c.data);
}

#[test]
fn ack_roundtrip() {
    let b = encode_ack_inner(0x01020304);
    assert_eq!(b, vec![1, 2, 3, 4]);
    assert_eq!(decode_ack_inner(&b), Ok(0x01020304));
    assert_eq!(decode_ack_inner(&b[..3]), Err(ProtoError::AckLength));
}

#[test]
fn short_plaintexts_are_refused() {
    assert_eq!(decode_msg_inner(&[0; 12]).err(), Some(ProtoError::MessageShort));
    let mut b = encode_msg_inner_at("ab", 0);
    b.pop();
    assert_eq!(decode_msg_inner(&b).err(), Some(ProtoError::MessageLength));
    assert_eq!(decode_addr_query(&[0; 52]).err(), Some(ProtoError::QueryLength));
    assert_eq!(decode_ip_changed_ack(&[0; 7]).err(), Some(ProtoError::ProbeAckLength));
    assert!(decode_addr_answer(&[0; 10]).is_err());
    assert!(decode_ip_changed(&[0; 5]).is_err());
    assert!(decode_gossip(&[]).is_err());
    assert!(decode_push_ip(&[0; 20]).is_err());
    assert!(decode_attach_chunk(&[0; 10]).is_err());
    let text = encode_msg_inner_at("0123456789", 0);
    assert_eq!(decode_attach_chunk(&text).err(), Some(ProtoError::NotAttachment));
}
