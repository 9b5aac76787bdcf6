//! What is read from a plaintext is what stands in it: where reading succeeds,
//! writing what was read gives the bytes back.

use vstd::prelude::*;
use vstd::utf8::{decode_utf8_encode_utf8, encode_utf8, valid_utf8};

use crate::bytes::{
    be16, be16_at, be32, be32_at, be64, be64_at, lemma_be16, lemma_be32, lemma_be32_at, lemma_be64,
    lemma_be64_at, lemma_be_at_slice,
};
use crate::proto::{
    ack_of, chunk_body, chunk_inner, chunk_of, lemma_lossy_text, lossy_text, msg_of, sent_name,
    ChunkView, ProtoError,
};
use crate::proto::addressing::{
    addr_answer_of, entries, entries_of, entry, gossip_of, ip_changed_ack_of, ip_changed_of,
    ips_bytes, is_address, list_of, push_ip_of,
};

verus! {

// ---------- numbers ----------

/// An acknowledgement is exactly the number of the message, and the
/// confirmation of an announcement exactly the number of that.
pub proof fn law_acknowledgements_are_exact(buf: Seq<u8>)
    ensures
        match ack_of(buf) {
            Ok(seq) => buf == be32(seq),
            Err(_) => forall|seq: u32| buf != #[trigger] be32(seq),
        },
        match ip_changed_ack_of(buf) {
            Ok(probe_id) => buf == be64(probe_id),
            Err(_) => forall|probe_id: u64| buf != #[trigger] be64(probe_id),
        },
{
    if buf.len() == 4 {
        lemma_be32_at(buf, 0);
        assert(buf.subrange(0, 4) =~= buf);
    }
    if buf.len() == 8 {
        lemma_be64_at(buf, 0);
        assert(buf.subrange(0, 8) =~= buf);
    }
}

// ---------- messages ----------

/// Whether a plaintext holds a kind, a time, a length, and that many bytes.
#[verifier::opaque]
pub open spec fn holds(buf: Seq<u8>, kind: u8, ts: u64, body: Seq<u8>) -> bool {
    &&& 13 + body.len() <= buf.len()
    &&& body.len() <= u32::MAX
    &&& buf.subrange(0, 13) == seq![kind] + be64(ts) + be32(body.len() as u32)
    &&& buf.subrange(13, 13 + body.len() as int) == body
}

/// A message is read exactly where the plaintext holds as many bytes as it
/// says, and then its kind, its time and its text are those that stand there.
pub proof fn law_message_is_read(buf: Seq<u8>, kind: u8, ts: u64, body: Seq<u8>)
    ensures
        holds(buf, kind, ts, body) ==> msg_of(buf) == Ok::<(u8, u64, Seq<char>), ProtoError>(
            (kind, ts, lossy_text(body)),
        ),
        msg_of(buf) matches Ok(m) ==> exists|b: Seq<u8>| #[trigger]
            holds(buf, m.0, m.1, b) && m.2 == lossy_text(b),
{
    if buf.len() >= 13 && buf.len() >= 13 + be32_at(buf, 9) {
        lemma_holds(buf);
        let m = msg_of(buf)->Ok_0;
        assert(holds(buf, m.0, m.1, buf.subrange(13, 13 + be32_at(buf, 9))));
    }
    if holds(buf, kind, ts, body) {
        lemma_held(buf, kind, ts, body);
    }
}

proof fn lemma_holds(buf: Seq<u8>)
    requires
        buf.len() >= 13 + be32_at(buf, 9),
    ensures
        holds(
            buf,
            buf[0],
            be64_at(buf, 1),
            buf.subrange(13, 13 + be32_at(buf, 9)),
        ),
{
    reveal(holds);
    lemma_head(buf);
}

proof fn lemma_held(buf: Seq<u8>, kind: u8, ts: u64, body: Seq<u8>)
    requires
        holds(buf, kind, ts, body),
    ensures
        buf.len() >= 13 + body.len(),
        buf[0] == kind,
        be64_at(buf, 1) == ts,
        be32_at(buf, 9) == body.len(),
        buf.subrange(13, 13 + be32_at(buf, 9)) == body,
{
    reveal(holds);
    lemma_head_of(buf, kind, ts, body.len() as u32);
}

/// A text cut in three.
proof fn lemma_three(front: Seq<u8>, kind: u8, x: Seq<u8>, y: Seq<u8>)
    requires
        x.len() == 8,
        y.len() == 4,
        front == seq![kind] + x + y,
    ensures
        front.len() == 13,
        front[0] == kind,
        front.subrange(1, 9) == x,
        front.subrange(9, 13) == y,
{
    assert(front.subrange(1, 9) =~= x);
    assert(front.subrange(9, 13) =~= y);
}

proof fn lemma_joined_three(buf: Seq<u8>, x: Seq<u8>, y: Seq<u8>)
    requires
        buf.len() >= 13,
        x == buf.subrange(1, 9),
        y == buf.subrange(9, 13),
    ensures
        buf.subrange(0, 13) == seq![buf[0]] + x + y,
{
    assert(buf.subrange(0, 13) =~= seq![buf[0]] + x + y);
}

proof fn lemma_head(buf: Seq<u8>)
    requires
        buf.len() >= 13,
    ensures
        buf.subrange(0, 13) == seq![buf[0]] + be64(be64_at(buf, 1)) + be32(be32_at(buf, 9)),
{
    lemma_be64_at(buf, 1);
    lemma_be32_at(buf, 9);
    lemma_joined_three(buf, be64(be64_at(buf, 1)), be32(be32_at(buf, 9)));
}

proof fn lemma_head_of(buf: Seq<u8>, kind: u8, ts: u64, n: u32)
    requires
        buf.len() >= 13,
        buf.subrange(0, 13) == seq![kind] + be64(ts) + be32(n),
    ensures
        buf[0] == kind,
        be64_at(buf, 1) == ts,
        be32_at(buf, 9) == n,
{
    let front = buf.subrange(0, 13);
    lemma_be64(ts);
    lemma_be32(n);
    lemma_three(front, kind, be64(ts), be32(n));
    assert(buf.subrange(1, 9) =~= front.subrange(1, 9));
    assert(buf.subrange(9, 13) =~= front.subrange(9, 13));
    lemma_be_at_slice(buf, 1);
    lemma_be_at_slice(buf, 9);
}

/// A chunk is read from nothing but its own written form, as long as its name
/// is UTF-8.
pub proof fn law_chunk_is_read(buf: Seq<u8>)
    ensures
        chunk_of(buf) matches Ok((ts, c)) ==> (valid_utf8(buf.subrange(47, 47 + buf[46])) ==> buf
            == chunk_inner(c, ts)),
{
    if chunk_of(buf) is Ok {
        let (ts, c) = chunk_of(buf)->Ok_0;
        let b = buf.skip(13);
        let n = b[33] as int;
        assert(b[33] == buf[46]);
        if valid_utf8(buf.subrange(47, 47 + n)) {
            let raw = b.subrange(34, 34 + n);
            assert(raw =~= buf.subrange(47, 47 + n));
            decode_utf8_encode_utf8(raw);
            assert(sent_name(c.name) == raw);
            lemma_body(b, c, raw, n);
            lemma_head(buf);
            assert(buf =~= buf.subrange(0, 13) + b);
            assert(b.len() == be32_at(buf, 9));
        }
    }
}

#[verifier::spinoff_prover]
#[verifier::rlimit(80)]
proof fn lemma_body(b: Seq<u8>, c: ChunkView, raw: Seq<u8>, n: int)
    requires
        n == b[33],
        b.len() == 38 + n + be32_at(b, 34 + n),
        raw == b.subrange(34, 34 + n),
        sent_name(c.name) == raw,
        c.transfer == b.subrange(0, 16),
        c.kind == b[16],
        c.index == be32_at(b, 17),
        c.total == be32_at(b, 21),
        c.total_size == be64_at(b, 25),
        c.data == b.skip(38 + n),
    ensures
        chunk_body(c) == b,
{
    reveal(chunk_body);
    lemma_be32_at(b, 17);
    lemma_be32_at(b, 21);
    lemma_be64_at(b, 25);
    lemma_be32_at(b, 34 + n);
    assert(raw.len() == n);
    assert(c.data.len() as u32 == be32_at(b, 34 + n));
    lemma_nine(
        b,
        n,
        c.transfer,
        c.kind,
        be32(c.index),
        be32(c.total),
        be64(c.total_size),
        sent_name(c.name).len() as u8,
        sent_name(c.name),
        be32(c.data.len() as u32),
        c.data,
    );
}

/// A text cut in nine.
proof fn lemma_nine(
    b: Seq<u8>,
    n: int,
    t: Seq<u8>,
    k: u8,
    x: Seq<u8>,
    y: Seq<u8>,
    z: Seq<u8>,
    m: u8,
    name: Seq<u8>,
    l: Seq<u8>,
    d: Seq<u8>,
)
    requires
        0 <= n,
        b.len() >= 38 + n,
        t == b.subrange(0, 16),
        k == b[16],
        x == b.subrange(17, 21),
        y == b.subrange(21, 25),
        z == b.subrange(25, 33),
        m == b[33],
        name == b.subrange(34, 34 + n),
        l == b.subrange(34 + n, 38 + n),
        d == b.skip(38 + n),
    ensures
        t + seq![k] + x + y + z + seq![m] + name + l + d == b,
{
    assert(t + seq![k] + x + y + z + seq![m] + name + l + d =~= b);
}

// ---------- lists of addresses ----------

/// Those of a list that are addresses.
pub open spec fn addresses_in(ips: Seq<Seq<char>>) -> Seq<Seq<char>>
    decreases ips.len(),
{
    if ips.len() == 0 {
        Seq::empty()
    } else if is_address(ips[0]) {
        seq![ips[0]] + addresses_in(ips.drop_first())
    } else {
        addresses_in(ips.drop_first())
    }
}

proof fn lemma_entries_read(front: Seq<u8>, ips: Seq<Seq<char>>, back: Seq<u8>)
    requires
        forall|i: int| 0 <= i < ips.len() ==> encode_utf8(#[trigger] ips[i]).len() <= 255,
    ensures
        entries_of(front + entries(ips) + back, front.len() as int, ips.len()) == Some(
            (addresses_in(ips), front.len() + entries(ips).len() as int),
        ),
    decreases ips.len(),
{
    let buf = front + entries(ips) + back;
    if ips.len() > 0 {
        let ip = ips[0];
        let rest = ips.drop_first();
        let b = encode_utf8(ip);
        assert forall|i: int| 0 <= i < rest.len() implies encode_utf8(#[trigger] rest[i]).len()
            <= 255 by {
            assert(rest[i] == ips[i + 1]);
        }
        let front2 = front + entry(ip);
        lemma_entries_read(front2, rest, back);
        assert(buf =~= front2 + entries(rest) + back);
        let off = front.len() as int;
        assert(buf[off] == entry(ip)[0]);
        assert(buf[off + 1] == entry(ip)[1]);
        assert(buf[off + 1] == b.len());
        assert(buf.subrange(off + 2, off + 2 + b.len()) =~= b);
        lemma_lossy_text(ip);
    }
}

/// From a list that was written, exactly those that are addresses are read, in
/// their order, whatever stands around the list; the others are skipped.
pub proof fn law_list_is_filtered(front: Seq<u8>, ips: Seq<Seq<char>>, back: Seq<u8>)
    requires
        ips.len() <= 0xffff,
        forall|i: int| 0 <= i < ips.len() ==> encode_utf8(#[trigger] ips[i]).len() <= 255,
    ensures
        list_of(front + ips_bytes(ips) + back, front.len() as int) == Ok::<
            (Seq<Seq<char>>, int),
            ProtoError,
        >((addresses_in(ips), front.len() + ips_bytes(ips).len() as int)),
{
    let n = ips.len() as u16;
    let buf = front + ips_bytes(ips) + back;
    let front2 = front + be16(n);
    lemma_be16(n);
    lemma_be_at_slice(buf, front.len() as int);
    assert(buf.subrange(front.len() as int, front.len() as int + 2) =~= be16(n));
    assert(buf =~= front2 + entries(ips) + back);
    lemma_entries_read(front2, ips, back);
}

/// Whatever the bytes, only addresses are read from them, and no more than they
/// say.
pub proof fn law_only_addresses_are_read(buf: Seq<u8>, off: int, count: nat)
    ensures
        entries_of(buf, off, count) matches Some((ips, stop)) ==> ips.len() <= count && stop >= off
            && (count > 0 ==> stop <= buf.len()) && forall|i: int|
            0 <= i < ips.len() ==> is_address(#[trigger] ips[i]),
    decreases count,
{
    if count > 0 && off + 2 <= buf.len() && off + 2 + buf[off + 1] <= buf.len() {
        let end = off + 2 + buf[off + 1];
        law_only_addresses_are_read(buf, end, (count - 1) as nat);
    }
}

/// The fields before the list are those that stand in the plaintext.
pub proof fn law_fields_are_read(buf: Seq<u8>)
    ensures
        addr_answer_of(buf) matches Ok(a) ==> buf.subrange(0, 49) == seq![buf[0]] + a.target_id
            + a.nonce_q && a.target_id.len() == 32 && a.nonce_q.len() == 16 && (a.hit <==> buf[0]
            == 0x01),
        ip_changed_of(buf) matches Ok((probe_id, _)) ==> buf.subrange(0, 9) == seq![0x01u8] + be64(
            probe_id,
        ),
        gossip_of(buf) matches Ok((victims, _)) ==> victims.len() <= 0xffff && buf.len() >= 3 + 32
            * victims.len() && buf.subrange(0, 3) == seq![0x01u8] + be16(victims.len() as u16) && (
        forall|i: int|
            0 <= i < victims.len() ==> #[trigger] victims[i] == buf.subrange(
                3 + 32 * i,
                35 + 32 * i,
            )),
        push_ip_of(buf) matches Ok((source, _)) ==> source.len() == 32 && buf.subrange(0, 32)
            == source,
{
    if buf.len() >= 51 {
        assert(buf.subrange(0, 49) =~= seq![buf[0]] + buf.subrange(1, 33) + buf.subrange(33, 49));
    }
    if buf.len() >= 11 && buf[0] == 0x01 {
        lemma_be64_at(buf, 1);
        assert(buf.subrange(0, 9) =~= seq![0x01u8] + be64(be64_at(buf, 1)));
    }
    if gossip_of(buf) is Ok {
        let n = be16_at(buf, 1);
        assert(be16(n) =~= buf.subrange(1, 3));
        assert(buf.subrange(0, 3) =~= seq![0x01u8] + be16(n));
    }
}

} // verus!
