//! Plaintexts of the addressing packets. Integers are big-endian; a list of
//! addresses is `count(2) | [ family(1) | len(1) | text ]*`, where an address
//! is written with or without its port.
//!
//! - Query: `0x01 | target(32) | nonce(16) | fail_seq(4)`
//! - Answer: `0x01 hit or 0x00 unknown | target(32) | nonce(16) | list`
//! - Probe ("my address changed, please confirm"): `0x01 | probe(8) | list`
//! - Probe confirmation: `probe(8)`
//! - Gossip ("these friends have not heard of my new address"):
//!   `0x01 | victim_count(2) | [ victim(32) ]* | list`
//! - Push ("this is a common friend's new address"): `source(32) | list`

use vstd::prelude::*;
use vstd::utf8::encode_utf8;

use crate::bytes::{
    append, array_at, be16, be16_at, be32, be32_at, be64, be64_at, cut, get_be16, get_be32, get_be64,
    lemma_be16, lemma_be32, lemma_be64, lemma_be_at_slice, push_be16, push_be32, push_be64,
};
use crate::net::ip::{ip_of, read_ip, read_sockaddr, sockaddr_of};
use crate::proto::{from_utf8_lossy, lemma_lossy_text, lossy_text, ProtoError};
use crate::text::{chars_of, text_has, texts};

verus! {

pub const ADDR_ANSWER_HIT: u8 = 0x01;

pub const ADDR_ANSWER_MISS: u8 = 0x00;

// ---------- lists of addresses ----------

/// Whether a text is an IP address, with or without a port.
#[verifier::opaque]
pub open spec fn is_address(s: Seq<char>) -> bool {
    ip_of(s) is Some || sockaddr_of(s) is Some
}

fn is_address_text(s: &str) -> (r: bool)
    ensures
        r == is_address(s@),
{
    reveal(is_address);
    let c = chars_of(s);
    read_ip(&c).is_some() || read_sockaddr(&c).is_some()
}

/// One entry of a list.
pub open spec fn entry(ip: Seq<char>) -> Seq<u8> {
    seq![
        if ip.contains(':') {
            6u8
        } else {
            4u8
        },
        encode_utf8(ip).len() as u8,
    ] + encode_utf8(ip)
}

/// Entries one after the other.
pub open spec fn entries(ips: Seq<Seq<char>>) -> Seq<u8>
    decreases ips.len(),
{
    if ips.len() == 0 {
        Seq::empty()
    } else {
        entry(ips[0]) + entries(ips.drop_first())
    }
}

/// As many addresses as a list can count.
pub open spec fn counted(ips: Seq<Seq<char>>) -> Seq<Seq<char>> {
    if ips.len() > 0xffff {
        ips.take(0xffff)
    } else {
        ips
    }
}

/// A list of addresses.
pub open spec fn ips_bytes(ips: Seq<Seq<char>>) -> Seq<u8> {
    be16(counted(ips).len() as u16) + entries(counted(ips))
}

proof fn lemma_entries_push(ips: Seq<Seq<char>>, ip: Seq<char>)
    ensures
        entries(ips.push(ip)) == entries(ips) + entry(ip),
    decreases ips.len(),
{
    let all = ips.push(ip);
    if ips.len() == 0 {
        assert(all.drop_first() =~= Seq::<Seq<char>>::empty());
        assert(entries(all.drop_first()) =~= Seq::<u8>::empty());
        assert(entries(ips) =~= Seq::<u8>::empty());
        assert(entries(all) =~= entries(ips) + entry(ip));
    } else {
        lemma_entries_push(ips.drop_first(), ip);
        assert(all.drop_first() =~= ips.drop_first().push(ip));
        assert(entries(all) =~= entries(ips) + entry(ip));
    }
}

/// A list of addresses.
pub fn encode_ips(ips: &[String]) -> (out: Vec<u8>)
    ensures
        out@ == ips_bytes(texts(ips@)),
{
    let mut out: Vec<u8> = Vec::new();
    let cnt: usize = if ips.len() > 0xffff {
        0xffff
    } else {
        ips.len()
    };
    push_be16(&mut out, cnt as u16);
    let ghost all = texts(ips@);
    let mut i: usize = 0;
    assert(out@ =~= be16(cnt as u16) + entries(all.take(0)));
    while i < cnt
        invariant
            i <= cnt <= ips@.len(),
            all == texts(ips@),
            out@ == be16(cnt as u16) + entries(all.take(i as int)),
        decreases cnt - i,
    {
        let ip = ips[i].as_str();
        let b = ip.as_bytes();
        let ghost before = out@;
        out.push(
            if text_has(ip, ':') {
                6
            } else {
                4
            },
        );
        out.push(b.len() as u8);
        append(&mut out, b);
        assert(out@ =~= before + entry(ip@));
        proof {
            lemma_entries_push(all.take(i as int), ip@);
            assert(all.take(i as int).push(ip@) =~= all.take(i + 1));
        }
        assert(out@ =~= be16(cnt as u16) + entries(all.take(i + 1)));
        i = i + 1;
    }
    assert(all.take(cnt as int) =~= counted(all));
    out
}

/// The addresses among `count` entries that begin at `off`, and where the
/// entries end; `None` where the bytes run out. Entries of another family or
/// whose text is no address are left out.
pub open spec fn entries_of(buf: Seq<u8>, off: int, count: nat) -> Option<(Seq<Seq<char>>, int)>
    decreases count,
{
    if count == 0 {
        Some((Seq::empty(), off))
    } else if off + 2 > buf.len() || off + 2 + buf[off + 1] > buf.len() {
        None
    } else {
        let end = off + 2 + buf[off + 1];
        let s = lossy_text(buf.subrange(off + 2, end));
        match entries_of(buf, end, (count - 1) as nat) {
            None => None,
            Some((rest, stop)) => if (buf[off] == 4 || buf[off] == 6) && is_address(s) {
                Some((seq![s] + rest, stop))
            } else {
                Some((rest, stop))
            },
        }
    }
}

/// Addresses in front of what is still to be read.
spec fn prepend(
    front: Seq<Seq<char>>,
    rest: Option<(Seq<Seq<char>>, int)>,
) -> Option<(Seq<Seq<char>>, int)> {
    match rest {
        Some((r, stop)) => Some((front + r, stop)),
        None => None,
    }
}

fn decode_entries(buf: &[u8], off: usize, count: u16) -> (r: Option<(Vec<String>, usize)>)
    requires
        off <= buf@.len(),
    ensures
        match entries_of(buf@, off as int, count as nat) {
            Some((ips, stop)) => r matches Some(x) && texts(x.0@) == ips && x.1 == stop,
            None => r is None,
        },
{
    let mut ips: Vec<String> = Vec::new();
    let mut o: usize = off;
    let mut left: u16 = count;
    let ghost whole = entries_of(buf@, off as int, count as nat);
    assert(texts(ips@) =~= Seq::<Seq<char>>::empty());
    proof {
        if whole is Some {
            assert(texts(ips@) + (whole->0).0 =~= (whole->0).0);
        }
    }
    while left > 0
        invariant
            o <= buf@.len(),
            whole == entries_of(buf@, off as int, count as nat),
            whole == prepend(texts(ips@), entries_of(buf@, o as int, left as nat)),
        decreases left,
    {
        let ghost rest = entries_of(buf@, o as int, left as nat);
        if buf.len() - o < 2 {
            return None;
        }
        let af: u8 = buf[o];
        let len: usize = buf[o + 1] as usize;
        if buf.len() - o - 2 < len {
            return None;
        }
        let raw = cut(buf, o + 2, o + 2 + len);
        let s = from_utf8_lossy(&raw);
        let ghost before = texts(ips@);
        if (af == 4 || af == 6) && is_address_text(&s) {
            let ghost t = s@;
            ips.push(s);
            assert(texts(ips@) =~= before.push(t));
            proof {
                let tail = entries_of(buf@, o + 2 + len, (left - 1) as nat);
                if tail is Some {
                    assert(before + (seq![t] + (tail->0).0) =~= texts(ips@) + (tail->0).0);
                }
            }
        }
        o = o + 2 + len;
        left = left - 1;
    }
    assert(texts(ips@) + Seq::<Seq<char>>::empty() =~= texts(ips@));
    Some((ips, o))
}

/// The addresses of a list that begins at `off`, and where it ends.
pub open spec fn list_of(buf: Seq<u8>, off: int) -> Result<(Seq<Seq<char>>, int), ProtoError> {
    if off + 2 > buf.len() {
        Err(ProtoError::ListShort)
    } else {
        match entries_of(buf, off + 2, be16_at(buf, off) as nat) {
            Some(r) => Ok(r),
            None => Err(ProtoError::ListLength),
        }
    }
}

/// The addresses of a list that begins at `off`, and where it ends.
pub fn decode_ips(buf: &[u8], off: usize) -> (r: Result<(Vec<String>, usize), ProtoError>)
    requires
        off <= buf@.len(),
    ensures
        match list_of(buf@, off as int) {
            Ok((ips, stop)) => r matches Ok(x) && texts(x.0@) == ips && x.1 == stop,
            Err(e) => r matches Err(x) && x == e,
        },
{
    if buf.len() - off < 2 {
        return Err(ProtoError::ListShort);
    }
    match decode_entries(buf, off + 2, get_be16(buf, off)) {
        Some(r) => Ok(r),
        None => Err(ProtoError::ListLength),
    }
}

/// Whether a list of addresses can be sent without loss.
pub open spec fn sendable(ips: Seq<Seq<char>>) -> bool {
    &&& ips.len() <= 0xffff
    &&& forall|i: int|
        0 <= i < ips.len() ==> encode_utf8(#[trigger] ips[i]).len() <= 255 && is_address(ips[i])
}

/// Entries read back as they were written, whatever stands around them.
proof fn lemma_entries_of(front: Seq<u8>, ips: Seq<Seq<char>>, back: Seq<u8>)
    requires
        sendable(ips),
    ensures
        entries_of(front + entries(ips) + back, front.len() as int, ips.len()) == Some(
            (ips, front.len() + entries(ips).len() as int),
        ),
    decreases ips.len(),
{
    let buf = front + entries(ips) + back;
    if ips.len() == 0 {
        assert(ips =~= Seq::<Seq<char>>::empty());
    } else {
        let ip = ips[0];
        let rest = ips.drop_first();
        let b = encode_utf8(ip);
        assert(sendable(rest)) by {
            assert forall|i: int| 0 <= i < rest.len() implies encode_utf8(#[trigger] rest[i]).len()
                <= 255 && is_address(rest[i]) by {
                assert(rest[i] == ips[i + 1]);
            }
        }
        let front2 = front + entry(ip);
        lemma_entries_of(front2, rest, back);
        assert(buf =~= front2 + entries(rest) + back);
        let off = front.len() as int;
        assert(buf[off] == entry(ip)[0]);
        assert(buf[off + 1] == entry(ip)[1]);
        assert(buf[off + 1] == b.len());
        assert(buf.subrange(off + 2, off + 2 + b.len()) =~= b);
        lemma_lossy_text(ip);
        assert(seq![ip] + rest =~= ips);
    }
}

/// A list of addresses reads back as it was written, whatever stands around
/// it.
pub proof fn law_list_round_trip(front: Seq<u8>, ips: Seq<Seq<char>>, back: Seq<u8>)
    requires
        sendable(ips),
    ensures
        list_of(front + ips_bytes(ips) + back, front.len() as int) == Ok::<
            (Seq<Seq<char>>, int),
            ProtoError,
        >((ips, front.len() + ips_bytes(ips).len() as int)),
{
    let n = ips.len() as u16;
    let buf = front + ips_bytes(ips) + back;
    let front2 = front + be16(n);
    lemma_be16(n);
    lemma_be_at_slice(buf, front.len() as int);
    assert(buf.subrange(front.len() as int, front.len() as int + 2) =~= be16(n));
    assert(buf =~= front2 + entries(ips) + back);
    lemma_entries_of(front2, ips, back);
}

// ---------- address queries ----------

pub struct AddrQuery {
    pub target_id: [u8; 32],
    pub nonce_q: [u8; 16],
    pub fail_seq: u32,
}

/// The plaintext of an address query.
pub open spec fn addr_query_bytes(target_id: Seq<u8>, nonce_q: Seq<u8>, fail_seq: u32) -> Seq<u8> {
    seq![0x01u8] + target_id + nonce_q + be32(fail_seq)
}

pub fn encode_addr_query(target_id: &[u8; 32], nonce_q: &[u8; 16], fail_seq: u32) -> (out: Vec<u8>)
    ensures
        out@ == addr_query_bytes(target_id@, nonce_q@, fail_seq),
{
    let mut out: Vec<u8> = Vec::new();
    out.push(0x01);
    append(&mut out, target_id);
    append(&mut out, nonce_q);
    push_be32(&mut out, fail_seq);
    assert(out@ =~= addr_query_bytes(target_id@, nonce_q@, fail_seq));
    out
}

pub fn decode_addr_query(buf: &[u8]) -> (r: Result<AddrQuery, ProtoError>)
    ensures
        buf@.len() == 53 ==> (r matches Ok(q) && q.target_id@ == buf@.subrange(1, 33) && q.nonce_q@
            == buf@.subrange(33, 49) && q.fail_seq == be32_at(buf@, 49)),
        buf@.len() != 53 ==> (r matches Err(e) && e == ProtoError::QueryLength),
{
    if buf.len() != 53 {
        return Err(ProtoError::QueryLength);
    }
    Ok(
        AddrQuery {
            target_id: array_at::<32>(buf, 1),
            nonce_q: array_at::<16>(buf, 33),
            fail_seq: get_be32(buf, 49),
        },
    )
}

/// An address query gives back its fields.
pub proof fn law_addr_query_round_trip(target_id: Seq<u8>, nonce_q: Seq<u8>, fail_seq: u32)
    requires
        target_id.len() == 32,
        nonce_q.len() == 16,
    ensures
        ({
            let b = addr_query_bytes(target_id, nonce_q, fail_seq);
            &&& b.len() == 53
            &&& b.subrange(1, 33) == target_id
            &&& b.subrange(33, 49) == nonce_q
            &&& be32_at(b, 49) == fail_seq
        }),
{
    let b = addr_query_bytes(target_id, nonce_q, fail_seq);
    lemma_be32(fail_seq);
    lemma_be_at_slice(b, 49);
    assert(b.subrange(1, 33) =~= target_id);
    assert(b.subrange(33, 49) =~= nonce_q);
    assert(b.subrange(49, 53) =~= be32(fail_seq));
}

// ---------- address answers ----------

pub struct AddrAnswer {
    pub hit: bool,
    pub target_id: [u8; 32],
    pub nonce_q: [u8; 16],
    pub ips: Vec<String>,
}

/// The contents of an [`AddrAnswer`].
#[verifier::ext_equal]
pub struct AnswerView {
    pub hit: bool,
    pub target_id: Seq<u8>,
    pub nonce_q: Seq<u8>,
    pub ips: Seq<Seq<char>>,
}

impl View for AddrAnswer {
    type V = AnswerView;

    open spec fn view(&self) -> AnswerView {
        AnswerView {
            hit: self.hit,
            target_id: self.target_id@,
            nonce_q: self.nonce_q@,
            ips: texts(self.ips@),
        }
    }
}

/// The plaintext of an address answer.
pub open spec fn addr_answer_bytes(
    target_id: Seq<u8>,
    nonce_q: Seq<u8>,
    ips: Seq<Seq<char>>,
) -> Seq<u8> {
    seq![
        if ips.len() == 0 {
            ADDR_ANSWER_MISS
        } else {
            ADDR_ANSWER_HIT
        },
    ] + target_id + nonce_q + ips_bytes(ips)
}

pub fn encode_addr_answer(target_id: &[u8; 32], nonce_q: &[u8; 16], ips: &[String]) -> (out: Vec<
    u8,
>)
    ensures
        out@ == addr_answer_bytes(target_id@, nonce_q@, texts(ips@)),
{
    let mut out: Vec<u8> = Vec::new();
    if ips.len() == 0 {
        out.push(ADDR_ANSWER_MISS);
    } else {
        out.push(ADDR_ANSWER_HIT);
    }
    append(&mut out, target_id);
    append(&mut out, nonce_q);
    append(&mut out, &encode_ips(ips));
    assert(out@ =~= addr_answer_bytes(target_id@, nonce_q@, texts(ips@)));
    out
}

/// What [`decode_addr_answer`] makes of a plaintext.
pub open spec fn addr_answer_of(buf: Seq<u8>) -> Result<AnswerView, ProtoError> {
    if buf.len() < 51 {
        Err(ProtoError::AnswerShort)
    } else {
        match entries_of(buf, 51, be16_at(buf, 49) as nat) {
            Some((ips, _)) => Ok(
                AnswerView {
                    hit: buf[0] == ADDR_ANSWER_HIT,
                    target_id: buf.subrange(1, 33),
                    nonce_q: buf.subrange(33, 49),
                    ips,
                },
            ),
            None => Err(ProtoError::AnswerList),
        }
    }
}

pub fn decode_addr_answer(buf: &[u8]) -> (r: Result<AddrAnswer, ProtoError>)
    ensures
        match addr_answer_of(buf@) {
            Ok(a) => r matches Ok(x) && x@ == a,
            Err(e) => r matches Err(x) && x == e,
        },
{
    if buf.len() < 51 {
        return Err(ProtoError::AnswerShort);
    }
    match decode_entries(buf, 51, get_be16(buf, 49)) {
        Some((ips, _)) => Ok(
            AddrAnswer {
                hit: buf[0] == ADDR_ANSWER_HIT,
                target_id: array_at::<32>(buf, 1),
                nonce_q: array_at::<16>(buf, 33),
                ips,
            },
        ),
        None => Err(ProtoError::AnswerList),
    }
}

/// An address answer gives back its fields; it is a hit where it names an
/// address.
pub proof fn law_addr_answer_round_trip(
    target_id: Seq<u8>,
    nonce_q: Seq<u8>,
    ips: Seq<Seq<char>>,
)
    requires
        target_id.len() == 32,
        nonce_q.len() == 16,
        sendable(ips),
    ensures
        addr_answer_of(addr_answer_bytes(target_id, nonce_q, ips)) == Ok::<AnswerView, ProtoError>(
            AnswerView { hit: ips.len() > 0, target_id, nonce_q, ips },
        ),
{
    let b = addr_answer_bytes(target_id, nonce_q, ips);
    let front = seq![
        if ips.len() == 0 {
            ADDR_ANSWER_MISS
        } else {
            ADDR_ANSWER_HIT
        },
    ] + target_id + nonce_q;
    assert(b =~= front + ips_bytes(ips) + Seq::<u8>::empty());
    law_list_round_trip(front, ips, Seq::empty());
    assert(b.subrange(1, 33) =~= target_id);
    assert(b.subrange(33, 49) =~= nonce_q);
}

// ---------- probes ----------

/// The plaintext of a probe.
pub open spec fn ip_changed_bytes(probe_id: u64, ips: Seq<Seq<char>>) -> Seq<u8> {
    seq![0x01u8] + be64(probe_id) + ips_bytes(ips)
}

pub fn encode_ip_changed(probe_id: u64, ips: &[String]) -> (out: Vec<u8>)
    ensures
        out@ == ip_changed_bytes(probe_id, texts(ips@)),
{
    let mut out: Vec<u8> = Vec::new();
    out.push(0x01);
    push_be64(&mut out, probe_id);
    append(&mut out, &encode_ips(ips));
    assert(out@ =~= ip_changed_bytes(probe_id, texts(ips@)));
    out
}

/// What [`decode_ip_changed`] makes of a plaintext.
pub open spec fn ip_changed_of(buf: Seq<u8>) -> Result<(u64, Seq<Seq<char>>), ProtoError> {
    if buf.len() < 11 {
        Err(ProtoError::ProbeShort)
    } else if buf[0] != 0x01 {
        Err(ProtoError::ProbeKind)
    } else {
        match list_of(buf, 9) {
            Ok((ips, _)) => Ok((be64_at(buf, 1), ips)),
            Err(e) => Err(e),
        }
    }
}

pub fn decode_ip_changed(buf: &[u8]) -> (r: Result<(u64, Vec<String>), ProtoError>)
    ensures
        match ip_changed_of(buf@) {
            Ok((probe, ips)) => r matches Ok(x) && x.0 == probe && texts(x.1@) == ips,
            Err(e) => r matches Err(x) && x == e,
        },
{
    if buf.len() < 11 {
        return Err(ProtoError::ProbeShort);
    }
    if buf[0] != 0x01 {
        return Err(ProtoError::ProbeKind);
    }
    match decode_ips(buf, 9) {
        Ok((ips, _)) => Ok((get_be64(buf, 1), ips)),
        Err(e) => Err(e),
    }
}

/// A probe gives back its number and addresses.
pub proof fn law_ip_changed_round_trip(probe_id: u64, ips: Seq<Seq<char>>)
    requires
        sendable(ips),
    ensures
        ip_changed_of(ip_changed_bytes(probe_id, ips)) == Ok::<(u64, Seq<Seq<char>>), ProtoError>(
            (probe_id, ips),
        ),
{
    let b = ip_changed_bytes(probe_id, ips);
    let front = seq![0x01u8] + be64(probe_id);
    lemma_be64(probe_id);
    assert(b =~= front + ips_bytes(ips) + Seq::<u8>::empty());
    law_list_round_trip(front, ips, Seq::empty());
    lemma_be_at_slice(b, 1);
    assert(b.subrange(1, 9) =~= be64(probe_id));
}

/// The plaintext of a probe confirmation.
pub fn encode_ip_changed_ack(probe_id: u64) -> (out: Vec<u8>)
    ensures
        out@ == be64(probe_id),
{
    let mut out: Vec<u8> = Vec::new();
    push_be64(&mut out, probe_id);
    assert(out@ =~= be64(probe_id));
    out
}

/// What [`decode_ip_changed_ack`] makes of a plaintext.
pub open spec fn ip_changed_ack_of(buf: Seq<u8>) -> Result<u64, ProtoError> {
    if buf.len() != 8 {
        Err(ProtoError::ProbeAckLength)
    } else {
        Ok(be64_at(buf, 0))
    }
}

pub fn decode_ip_changed_ack(buf: &[u8]) -> (r: Result<u64, ProtoError>)
    ensures
        r == ip_changed_ack_of(buf@),
{
    if buf.len() != 8 {
        return Err(ProtoError::ProbeAckLength);
    }
    Ok(get_be64(buf, 0))
}

/// A probe confirmation gives back its number.
pub proof fn law_ip_changed_ack_round_trip(probe_id: u64)
    ensures
        ip_changed_ack_of(be64(probe_id)) == Ok::<u64, ProtoError>(probe_id),
{
    lemma_be64(probe_id);
}

// ---------- gossip ----------

/// The IDs in a list of keys.
pub open spec fn keys(v: Seq<[u8; 32]>) -> Seq<Seq<u8>> {
    Seq::new(v.len(), |i: int| v[i]@)
}

/// IDs one after the other.
pub open spec fn concat_keys(v: Seq<Seq<u8>>) -> Seq<u8>
    decreases v.len(),
{
    if v.len() == 0 {
        Seq::empty()
    } else {
        concat_keys(v.drop_last()) + v.last()
    }
}

/// As many victims as a gossip packet can count.
pub open spec fn counted_keys(v: Seq<Seq<u8>>) -> Seq<Seq<u8>> {
    if v.len() > 0xffff {
        v.take(0xffff)
    } else {
        v
    }
}

/// The plaintext of a gossip packet.
pub open spec fn gossip_bytes(victims: Seq<Seq<u8>>, ips: Seq<Seq<char>>) -> Seq<u8> {
    seq![0x01u8] + be16(counted_keys(victims).len() as u16) + concat_keys(counted_keys(victims))
        + ips_bytes(ips)
}

pub fn encode_gossip(victims: &[[u8; 32]], ips: &[String]) -> (out: Vec<u8>)
    ensures
        out@ == gossip_bytes(keys(victims@), texts(ips@)),
{
    let mut out: Vec<u8> = Vec::new();
    out.push(0x01);
    let vc: usize = if victims.len() > 0xffff {
        0xffff
    } else {
        victims.len()
    };
    push_be16(&mut out, vc as u16);
    let ghost all = keys(victims@);
    let ghost head = seq![0x01u8] + be16(vc as u16);
    let mut i: usize = 0;
    assert(out@ =~= head + concat_keys(all.take(0)));
    while i < vc
        invariant
            i <= vc <= victims@.len(),
            all == keys(victims@),
            out@ == head + concat_keys(all.take(i as int)),
        decreases vc - i,
    {
        append(&mut out, &victims[i]);
        i = i + 1;
        proof {
            let t = all.take(i as int);
            assert(t.drop_last() =~= all.take(i - 1));
            assert(t.last() == victims@[i - 1]@);
        }
        assert(out@ =~= head + concat_keys(all.take(i as int)));
    }
    assert(all.take(vc as int) =~= counted_keys(all));
    append(&mut out, &encode_ips(ips));
    out
}

/// The IDs that fill `count` fields of 32 bytes from `off` on.
pub open spec fn keys_at(buf: Seq<u8>, off: int, count: nat) -> Seq<Seq<u8>> {
    Seq::new(count, |i: int| buf.subrange(off + 32 * i, off + 32 * i + 32))
}

/// What [`decode_gossip`] makes of a plaintext.
pub open spec fn gossip_of(buf: Seq<u8>) -> Result<(Seq<Seq<u8>>, Seq<Seq<char>>), ProtoError> {
    if buf.len() < 3 {
        Err(ProtoError::GossipShort)
    } else if buf[0] != 0x01 {
        Err(ProtoError::GossipKind)
    } else {
        let vc = be16_at(buf, 1) as int;
        if buf.len() < 3 + 32 * vc + 2 {
            Err(ProtoError::GossipLength)
        } else {
            match list_of(buf, 3 + 32 * vc) {
                Ok((ips, _)) => Ok((keys_at(buf, 3, vc as nat), ips)),
                Err(e) => Err(e),
            }
        }
    }
}

pub fn decode_gossip(buf: &[u8]) -> (r: Result<(Vec<[u8; 32]>, Vec<String>), ProtoError>)
    ensures
        match gossip_of(buf@) {
            Ok((victims, ips)) => r matches Ok(x) && keys(x.0@) == victims && texts(x.1@) == ips,
            Err(e) => r matches Err(x) && x == e,
        },
{
    if buf.len() < 3 {
        return Err(ProtoError::GossipShort);
    }
    if buf[0] != 0x01 {
        return Err(ProtoError::GossipKind);
    }
    let vc: usize = get_be16(buf, 1) as usize;
    if buf.len() < 3 + 32 * vc + 2 {
        return Err(ProtoError::GossipLength);
    }
    let mut victims: Vec<[u8; 32]> = Vec::new();
    let mut i: usize = 0;
    while i < vc
        invariant
            i <= vc <= 0xffff,
            buf@.len() >= 3 + 32 * vc + 2,
            keys(victims@) =~= keys_at(buf@, 3, i as nat),
        decreases vc - i,
    {
        let v: [u8; 32] = array_at::<32>(buf, 3 + 32 * i);
        let ghost before = keys(victims@);
        victims.push(v);
        assert(keys(victims@) =~= before.push(v@));
        i = i + 1;
    }
    match decode_ips(buf, 3 + 32 * vc) {
        Ok((ips, _)) => Ok((victims, ips)),
        Err(e) => Err(e),
    }
}

proof fn lemma_keys_at(front: Seq<u8>, v: Seq<Seq<u8>>, back: Seq<u8>)
    requires
        forall|i: int| 0 <= i < v.len() ==> (#[trigger] v[i]).len() == 32,
    ensures
        concat_keys(v).len() == 32 * v.len(),
        keys_at(front + concat_keys(v) + back, front.len() as int, v.len()) == v,
    decreases v.len(),
{
    if v.len() > 0 {
        let w = v.drop_last();
        assert forall|i: int| 0 <= i < w.len() implies (#[trigger] w[i]).len() == 32 by {
            assert(w[i] == v[i]);
        }
        let buf = front + concat_keys(v) + back;
        let back2 = v.last() + back;
        lemma_keys_at(front, w, back2);
        assert(buf =~= front + concat_keys(w) + back2);
        let off = front.len() as int;
        assert forall|i: int| 0 <= i < v.len() implies #[trigger] keys_at(buf, off, v.len())[i]
            == v[i] by {
            if i < w.len() {
                assert(keys_at(buf, off, w.len())[i] == w[i]);
            } else {
                assert(buf.subrange(off + 32 * i, off + 32 * i + 32) =~= v.last());
            }
        }
        assert(keys_at(buf, off, v.len()) =~= v);
    } else {
        assert(keys_at(front + concat_keys(v) + back, front.len() as int, v.len()) =~= v);
    }
}

/// A gossip packet gives back its victims and addresses.
pub proof fn law_gossip_round_trip(victims: Seq<Seq<u8>>, ips: Seq<Seq<char>>)
    requires
        victims.len() <= 0xffff,
        forall|i: int| 0 <= i < victims.len() ==> (#[trigger] victims[i]).len() == 32,
        sendable(ips),
    ensures
        gossip_of(gossip_bytes(victims, ips)) == Ok::<
            (Seq<Seq<u8>>, Seq<Seq<char>>),
            ProtoError,
        >((victims, ips)),
{
    let b = gossip_bytes(victims, ips);
    let n = victims.len() as u16;
    let head = seq![0x01u8] + be16(n);
    lemma_be16(n);
    assert(b =~= head + concat_keys(victims) + ips_bytes(ips));
    lemma_keys_at(head, victims, ips_bytes(ips));
    lemma_be_at_slice(b, 1);
    assert(b.subrange(1, 3) =~= be16(n));
    let front = head + concat_keys(victims);
    assert(b =~= front + ips_bytes(ips) + Seq::<u8>::empty());
    law_list_round_trip(front, ips, Seq::empty());
}

// ---------- pushes ----------

/// The plaintext of a push.
pub open spec fn push_ip_bytes(source_id: Seq<u8>, ips: Seq<Seq<char>>) -> Seq<u8> {
    source_id + ips_bytes(ips)
}

pub fn encode_push_ip(source_id: &[u8; 32], ips: &[String]) -> (out: Vec<u8>)
    ensures
        out@ == push_ip_bytes(source_id@, texts(ips@)),
{
    let mut out: Vec<u8> = Vec::new();
    append(&mut out, source_id);
    append(&mut out, &encode_ips(ips));
    assert(out@ =~= push_ip_bytes(source_id@, texts(ips@)));
    out
}

/// What [`decode_push_ip`] makes of a plaintext.
pub open spec fn push_ip_of(buf: Seq<u8>) -> Result<(Seq<u8>, Seq<Seq<char>>), ProtoError> {
    if buf.len() < 34 {
        Err(ProtoError::PushShort)
    } else {
        match list_of(buf, 32) {
            Ok((ips, _)) => Ok((buf.subrange(0, 32), ips)),
            Err(e) => Err(e),
        }
    }
}

pub fn decode_push_ip(buf: &[u8]) -> (r: Result<([u8; 32], Vec<String>), ProtoError>)
    ensures
        match push_ip_of(buf@) {
            Ok((source, ips)) => r matches Ok(x) && x.0@ == source && texts(x.1@) == ips,
            Err(e) => r matches Err(x) && x == e,
        },
{
    if buf.len() < 34 {
        return Err(ProtoError::PushShort);
    }
    match decode_ips(buf, 32) {
        Ok((ips, _)) => Ok((array_at::<32>(buf, 0), ips)),
        Err(e) => Err(e),
    }
}

/// A push gives back its source and addresses.
pub proof fn law_push_ip_round_trip(source_id: Seq<u8>, ips: Seq<Seq<char>>)
    requires
        source_id.len() == 32,
        sendable(ips),
    ensures
        push_ip_of(push_ip_bytes(source_id, ips)) == Ok::<(Seq<u8>, Seq<Seq<char>>), ProtoError>(
            (source_id, ips),
        ),
{
    let b = push_ip_bytes(source_id, ips);
    assert(b =~= source_id + ips_bytes(ips) + Seq::<u8>::empty());
    law_list_round_trip(source_id, ips, Seq::empty());
    assert(b.subrange(0, 32) =~= source_id);
}

} // verus!
