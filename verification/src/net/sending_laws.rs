//! What becomes of a command: a message goes to every address of the friend or
//! is kept as failed, all chunks of an attachment go out, and a search asks
//! every other friend.

use vstd::prelude::*;
use vstd::utf8::encode_utf8;

use crate::crypto::{id, primitives};
use crate::net::attach::{
    are_chunk_packets, attach_sent, chunk_at, chunk_count, chunk_seq, chunks_dispatched,
};
use crate::net::driver::obeys;
use crate::net::event::{EventView, Moment, NetCommand, OutView};
use crate::net::ip::AddrView;
use crate::net::lookup::{asking_text, asks, failed_numbers, new_query, query_opened};
use crate::net::messages::{message_sent, send_refusal, sends_message};
use crate::net::node::{
    can_seal, is_sealed_packet, peer_addrs, plain_packet, AttachSendView, ChunkRefView, Me,
    NetError, NetState, QueryView, World,
};
use crate::net::packet::{
    decoded, law_packet_round_trip, lemma_unsigned_len, unsigned_bytes, PacketView, PktType,
    FLAG_EPHEMERAL,
};
use crate::net::rounds::{are_sealed_for, friend_keys, keys_but, peers_sent, sealable};
use crate::net::route_laws::{
    appears, continues, law_peer_addrs, lemma_continues_trans, lemma_reaches_later, reaches,
    recorded,
};
use crate::net::tick_laws::{is_sent_to, lemma_round, lemma_round_only};
use crate::net::traffic_laws::{law_dispatched, waits_afresh};
use crate::net::transfer_laws::valid_send;
use crate::proto::{chunk_inner, msg_inner, ChunkView};
use crate::proto::addressing::addr_query_bytes;
use crate::store::friends::{has_friend, FriendView};
use crate::table::{has_key, law_table, lemma_lookup_push, lookup};

verus! {

// ---------- messages ----------

/// Whether a friend has an address.
pub open spec fn has_address(w: World, id: Seq<u8>) -> bool {
    exists|a: AddrView| recorded(w.book, id, a)
}

pub proof fn lemma_has_address(w: World, id: Seq<u8>)
    ensures
        has_address(w, id) == (peer_addrs(w.book, id).len() > 0),
{
    law_peer_addrs(w.book, id);
    let addrs = peer_addrs(w.book, id);
    if has_address(w, id) {
        let a = choose|a: AddrView| recorded(w.book, id, a);
        assert(addrs.contains(a));
    }
    if addrs.len() > 0 {
        assert(addrs.contains(addrs[0]));
    }
}

/// Whether a message may be sent: it has at most 3000 bytes and goes to a
/// friend whose key can be used.
pub open spec fn may_send(w: World, id: Seq<u8>, content: Seq<char>) -> bool {
    &&& encode_utf8(content).len() <= 3000
    &&& primitives::edwards_to_montgomery(id) is Some
    &&& has_friend(w.book, id)
}

/// A message that may not be sent is reported as failed, and that is all. One
/// that may is sealed under its number with the time; it goes to every address
/// of the friend and waits for the acknowledgement, and nothing is reported.
/// Without an address it is kept and reported as failed.
pub proof fn law_message_goes_out(
    w: World,
    w2: World,
    recipient: [u8; 32],
    content: String,
    seq: u32,
    now: Moment,
    other: (Seq<u8>, u32),
)
    requires
        obeys(w, w2, NetCommand::Send { recipient, content, seq }, now),
        other != (recipient@, seq),
    ensures
        ({
            let id = recipient@;
            let lost = OutView::Event(EventView::MessageFailed { peer: id, seq });
            &&& !may_send(w, id, content@) ==> w2 == (World { out: w.out.push(lost), ..w })
            &&& may_send(w, id, content@) ==> exists|packet: Seq<u8>| #[trigger]
                is_sealed_packet(
                    w.net.me,
                    PktType::Msg,
                    FLAG_EPHEMERAL,
                    seq,
                    id,
                    msg_inner(content@, now.unix),
                    packet,
                ) && if has_address(w, id) {
                    &&& reaches(w, w2.out, id, packet)
                    &&& continues(w.out, w2.out)
                    &&& forall|k: int|
                        w.out.len() <= k < w2.out.len() ==> #[trigger] w2.out[k] is Send
                    &&& waits_afresh(w2.net, id, seq, packet, now.tick)
                    &&& w2.net == (NetState { retx: w2.net.retx, ..w.net })
                } else {
                    &&& w2.out == w.out.push(lost)
                    &&& lookup(w2.net.failed_sends, (id, seq)) == Some(packet)
                    &&& w2.net == (NetState { failed_sends: w2.net.failed_sends, ..w.net })
                }
            &&& w2.book == w.book
            &&& lookup(w2.net.retx, other) == lookup(w.net.retx, other)
            &&& lookup(w2.net.failed_sends, other) == lookup(w.net.failed_sends, other)
        }),
{
    let id = recipient@;
    if may_send(w, id, content@) {
        assert(sends_message(w, w2, id, content@, seq, now));
        let packet = choose|packet: Seq<u8>|
            is_sealed_packet(
                w.net.me,
                PktType::Msg,
                FLAG_EPHEMERAL,
                seq,
                id,
                msg_inner(content@, now.unix),
                packet,
            ) && w2 == #[trigger] message_sent(w, id, seq, packet, now.tick);
        lemma_has_address(w, id);
        law_dispatched(w, id, seq, packet, now.tick, other);
        law_table(w.net.failed_sends, (id, seq), packet, other);
    }
}

// ---------- attachments ----------

proof fn lemma_numbers(base: u32, i: int, j: int)
    requires
        -1 <= i < j < 0xffff_ffff,
    ensures
        chunk_seq(base, i + 1) != chunk_seq(base, j + 1),
        chunk_seq(base, j + 1) == chunk_seq(chunk_seq(base, j), 1),
        chunk_seq(base, 0) == base,
{
}

/// What a chunk looks like on its way.
pub open spec fn chunk_under_way(
    w: World,
    w2: World,
    recipient: Seq<u8>,
    transfer: Seq<u8>,
    i: int,
    number: u32,
    packet: Seq<u8>,
    now: u64,
) -> bool {
    &&& reaches(w, w2.out, recipient, packet)
    &&& waits_afresh(w2.net, recipient, number, packet, now)
    &&& lookup(w2.net.chunk_seqs, number) == Some(
        ChunkRefView { recipient, transfer, index: i as u32 },
    )
}

/// Whether a chunk is sealed under the next number but `i` and on its way.
pub open spec fn chunk_goes_out(
    w: World,
    w2: World,
    recipient: Seq<u8>,
    c: ChunkView,
    ts: u64,
    i: int,
    now: u64,
) -> bool {
    let number = chunk_seq(w.net.attach_seq, i + 1);
    exists|packet: Seq<u8>|
        is_sealed_packet(
            w.net.me,
            PktType::Msg,
            FLAG_EPHEMERAL,
            number,
            recipient,
            chunk_inner(c, ts),
            packet,
        ) && #[trigger] chunk_under_way(
            w,
            w2,
            recipient,
            c.transfer,
            i,
            number,
            packet,
            now,
        )
}

proof fn lemma_chunks_go_out(
    w: World,
    recipient: Seq<u8>,
    transfer: Seq<u8>,
    packets: Seq<Seq<u8>>,
    now: u64,
)
    requires
        packets.len() <= 0xffff_ffff,
    ensures
        ({
            let r = chunks_dispatched(w, recipient, transfer, packets, now);
            &&& continues(w.out, r.out)
            &&& r.net.attach_seq == chunk_seq(w.net.attach_seq, packets.len() as int)
            &&& forall|i: int|
                0 <= i < packets.len() ==> chunk_under_way(
                    w,
                    r,
                    recipient,
                    transfer,
                    i,
                    chunk_seq(w.net.attach_seq, i + 1),
                    #[trigger] packets[i],
                    now,
                )
            &&& r.book == w.book
            &&& r.net == (NetState {
                retx: r.net.retx,
                chunk_seqs: r.net.chunk_seqs,
                attach_seq: r.net.attach_seq,
                ..w.net
            })
            &&& forall|k: int| w.out.len() <= k < r.out.len() ==> #[trigger] r.out[k] is Send
        }),
    decreases packets.len(),
{
    let base = w.net.attach_seq;
    if packets.len() > 0 {
        let t = packets.drop_last();
        let n = t.len() as int;
        lemma_chunks_go_out(w, recipient, transfer, t, now);
        let f = chunks_dispatched(w, recipient, transfer, t, now);
        let r = chunks_dispatched(w, recipient, transfer, packets, now);
        let number = chunk_seq(f.net.attach_seq, 1);
        let packet = packets.last();
        let c = ChunkRefView { recipient, transfer, index: n as u32 };
        lemma_numbers(base, n - 1, n);
        law_dispatched(f, recipient, number, packet, now, (recipient, number));
        lemma_continues_trans(w.out, f.out, r.out);
        assert forall|k: int| w.out.len() <= k < r.out.len() implies #[trigger] r.out[k]
            is Send by {
            if k < f.out.len() {
                assert(r.out[k] == f.out[k]);
            }
        }
        assert forall|i: int| 0 <= i < packets.len() implies chunk_under_way(
            w,
            r,
            recipient,
            transfer,
            i,
            chunk_seq(base, i + 1),
            #[trigger] packets[i],
            now,
        ) by {
            let m = chunk_seq(base, i + 1);
            if i < n {
                assert(t[i] == packets[i]);
                lemma_numbers(base, i, n);
                law_dispatched(f, recipient, number, packet, now, (recipient, m));
                law_table(f.net.chunk_seqs, number, c, m);
                lemma_reaches_later(w, w, f.out, r.out, recipient, t[i]);
            } else {
                let some = if number == 0 {
                    1u32
                } else {
                    0u32
                };
                law_table(f.net.chunk_seqs, number, c, some);
                lemma_reaches_later(w, f, r.out, r.out, recipient, packet);
            }
        }
    } else {
        lemma_numbers(base, 0, 1);
    }
}

/// How many chunks of 2400 bytes an attachment takes; an empty one takes one.
pub open spec fn is_chunk_count(n: int, len: nat) -> bool {
    if len == 0 {
        n == 1
    } else {
        2400 * (n - 1) < len <= 2400 * n
    }
}

/// An attachment to a friend with a usable key and an address is cut into
/// chunks of 2400 bytes. Each of them goes to every address of the friend
/// under a number of its own, waits for its acknowledgement, and is known as a
/// chunk of the transfer, of which none is acknowledged yet. Otherwise the
/// transfer is reported as failed, and that is all.
pub proof fn law_attachment_goes_out(
    w: World,
    w2: World,
    recipient: [u8; 32],
    kind: u8,
    name: String,
    data: Vec<u8>,
    ts: u64,
    transfer: [u8; 16],
    now: Moment,
    n: int,
)
    requires
        obeys(w, w2, NetCommand::SendAttach { recipient, kind, name, data, ts, transfer }, now),
        data@.len() <= 0x1000_0000,
        is_chunk_count(n, data@.len()),
    ensures
        ({
            let id = recipient@;
            let lost = OutView::Event(EventView::AttachFailed { peer: id, transfer: transfer@ });
            let may = has_friend(w.book, id) && primitives::edwards_to_montgomery(id) is Some
                && has_address(w, id);
            &&& !may ==> w2 == (World { out: w.out.push(lost), ..w })
            &&& may ==> {
                &&& continues(w.out, w2.out)
                &&& forall|k: int|
                    w.out.len() <= k < w2.out.len() ==> #[trigger] w2.out[k] is Send
                &&& forall|i: int|
                    0 <= i < n ==> #[trigger] chunk_goes_out(
                        w,
                        w2,
                        id,
                        chunk_at(transfer@, kind, name@, data@, i),
                        ts,
                        i,
                        now.tick,
                    )
                &&& lookup(w2.net.attach_sends, transfer@) == Some(
                    AttachSendView { recipient: id, total_chunks: n as u32, acked: Set::empty() },
                )
                &&& valid_send(lookup(w2.net.attach_sends, transfer@)->0)
                &&& w2.net.attach_seq == chunk_seq(w.net.attach_seq, n)
                &&& w2.net.failed_sends == w.net.failed_sends
            }
            &&& w2.book == w.book
        }),
{
    let id = recipient@;
    lemma_has_address(w, id);
    assert(n == chunk_count(data@.len())) by {
        lemma_chunk_count(n, data@.len());
    }
    if has_friend(w.book, id) && primitives::edwards_to_montgomery(id) is Some && has_address(
        w,
        id,
    ) {
        let packets = choose|packets: Seq<Seq<u8>>|
            packets.len() == chunk_count(data@.len()) && #[trigger] are_chunk_packets(
                packets,
                w.net.me,
                w.net.attach_seq,
                id,
                transfer@,
                kind,
                name@,
                data@,
                ts,
            ) && w2 == attach_sent(w, id, transfer@, packets, now.tick);
        lemma_chunks_go_out(w, id, transfer@, packets, now.tick);
        let d = chunks_dispatched(w, id, transfer@, packets, now.tick);
        let s = AttachSendView {
            recipient: id,
            total_chunks: packets.len() as u32,
            acked: Set::empty(),
        };
        let other = transfer@.push(0);
        assert(other.len() != transfer@.len());
        law_table(d.net.attach_sends, transfer@, s, other);
        assert forall|i: int| 0 <= i < n implies #[trigger] chunk_goes_out(
            w,
            w2,
            id,
            chunk_at(transfer@, kind, name@, data@, i),
            ts,
            i,
            now.tick,
        ) by {
            let packet = packets[i];
            let number = chunk_seq(w.net.attach_seq, i + 1);
            assert(chunk_under_way(w, d, id, transfer@, i, number, packet, now.tick));
            let c = chunk_at(transfer@, kind, name@, data@, i);
            assert(is_sealed_packet(
                w.net.me,
                PktType::Msg,
                FLAG_EPHEMERAL,
                number,
                id,
                chunk_inner(c, ts),
                packet,
            ));
            assert(chunk_under_way(w, w2, id, c.transfer, i, number, packet, now.tick));
            assert(chunk_goes_out(w, w2, id, c, ts, i, now.tick));
        }
    }
}

proof fn lemma_chunk_count(n: int, len: nat)
    requires
        len <= 0x1000_0000,
        is_chunk_count(n, len),
    ensures
        n == chunk_count(len),
{
}

// ---------- rounds ----------

/// Whether a key is that of a friend.
pub open spec fn is_friend_key(book: Seq<FriendView>, k: Seq<u8>) -> bool {
    exists|i: int|
        0 <= i < book.len() && id::id_of_text((#[trigger] book[i]).pubkey) == Ok::<
            Seq<u8>,
            id::IdError,
        >(k)
}

/// The keys of a friend list are those of its friends.
pub proof fn lemma_friend_keys(book: Seq<FriendView>, k: Seq<u8>)
    ensures
        friend_keys(book).contains(k) <==> is_friend_key(book, k),
    decreases book.len(),
{
    if book.len() > 0 {
        let t = book.drop_last();
        lemma_friend_keys(t, k);
        let f = friend_keys(t);
        let all = friend_keys(book);
        if is_friend_key(book, k) {
            let i = choose|i: int|
                0 <= i < book.len() && id::id_of_text((#[trigger] book[i]).pubkey) == Ok::<
                    Seq<u8>,
                    id::IdError,
                >(k);
            if i < t.len() {
                assert(t[i] == book[i]);
                let j = f.index_of(k);
                assert(all[j] == k);
            } else {
                assert(all[all.len() - 1] == k);
            }
        }
        if all.contains(k) {
            let j = all.index_of(k);
            if j < f.len() {
                assert(f[j] == k);
                let i = choose|i: int|
                    0 <= i < t.len() && id::id_of_text((#[trigger] t[i]).pubkey) == Ok::<
                        Seq<u8>,
                        id::IdError,
                    >(k);
                assert(book[i] == t[i]);
            } else {
                assert(book[book.len() - 1] == book.last());
            }
        }
    }
}

pub proof fn lemma_keys_but(v: Seq<Seq<u8>>, gone: Seq<u8>, k: Seq<u8>)
    ensures
        keys_but(v, gone).contains(k) <==> v.contains(k) && k != gone,
    decreases v.len(),
{
    if v.len() > 0 {
        let t = v.drop_last();
        lemma_keys_but(t, gone, k);
        let f = keys_but(t, gone);
        let all = keys_but(v, gone);
        assert(v =~= t.push(v.last()));
        lemma_push_contains(t, v.last(), k);
        lemma_push_contains(f, v.last(), k);
    }
}

pub proof fn lemma_sealable(v: Seq<Seq<u8>>, len: nat, k: Seq<u8>)
    ensures
        sealable(v, len).contains(k) <==> v.contains(k) && can_seal(k, len),
    decreases v.len(),
{
    if v.len() > 0 {
        let t = v.drop_last();
        lemma_sealable(t, len, k);
        let f = sealable(t, len);
        assert(v =~= t.push(v.last()));
        lemma_push_contains(t, v.last(), k);
        lemma_push_contains(f, v.last(), k);
    }
}

pub proof fn lemma_push_contains<A>(s: Seq<A>, x: A, k: A)
    ensures
        s.push(x).contains(k) <==> s.contains(k) || x == k,
{
    let p = s.push(x);
    if s.contains(k) {
        let i = s.index_of(k);
        assert(p[i] == k);
    }
    if x == k {
        assert(p[s.len() as int] == k);
    }
    if p.contains(k) {
        let i = p.index_of(k);
        if i < s.len() {
            assert(s[i] == k);
        }
    }
}

/// Whether an encrypted packet goes out to every address of a friend.
pub open spec fn is_told(
    w: World,
    out: Seq<OutView>,
    ptype: PktType,
    flags: u8,
    k: Seq<u8>,
    inner: Seq<u8>,
) -> bool {
    exists|packet: Seq<u8>| #[trigger]
        is_sealed_packet(w.net.me, ptype, flags, 0, k, inner, packet) && reaches(
            w,
            out,
            k,
            packet,
        )
}

/// A round tells everyone it is for.
pub proof fn lemma_round_tells(
    w: World,
    ptype: PktType,
    flags: u8,
    peers: Seq<Seq<u8>>,
    inner: Seq<u8>,
    packets: Seq<Seq<u8>>,
    k: Seq<u8>,
)
    requires
        are_sealed_for(w.net.me, ptype, flags, peers, inner, packets),
        peers.contains(k),
    ensures
        is_told(w, peers_sent(w, peers, packets).out, ptype, flags, k, inner),
{
    lemma_round(w, peers, packets);
    let i = peers.index_of(k);
    assert(is_sealed_packet(w.net.me, ptype, flags, 0, peers[i], inner, packets[i]));
    assert(reaches(w, peers_sent(w, peers, packets).out, peers[i], packets[i]));
}

// ---------- searches ----------

/// Whether a friend is asked for the address of another.
pub open spec fn is_asked(w: World, target: Seq<u8>, k: Seq<u8>) -> bool {
    is_friend_key(w.book, k) && k != target && can_seal(k, 53)
}

proof fn lemma_failed_numbers(failed: Seq<((Seq<u8>, u32), Seq<u8>)>, who: Seq<u8>, s: u32)
    ensures
        failed_numbers(failed, who).contains(s) <==> has_key(failed, (who, s)),
    decreases failed.len(),
{
    if failed.len() > 0 {
        let t = failed.drop_last();
        lemma_failed_numbers(t, who, s);
        lemma_push_contains(failed_numbers(t, who), failed.last().0.1, s);
        lemma_lookup_push(t, failed.last(), (who, s));
        assert(t.push(failed.last()) =~= failed);
    }
}

/// What opens a search: everyone who may be asked is asked, under a number, at
/// all of its addresses, and the query waits under that number with nobody's
/// answer yet.
pub open spec fn search_opened(
    w: World,
    w2: World,
    target: Seq<u8>,
    nonce: Seq<u8>,
    q: QueryView,
    now: u64,
) -> bool {
    &&& nonce.len() == 16
    &&& lookup(w2.net.addr_queries, nonce) == Some(q)
    &&& q.target == target
    &&& q.started == now
    &&& q.answered.len() == 0
    &&& q.attempts == 0
    &&& q.next_retry as int == if now + 2000 <= u64::MAX {
        now + 2000
    } else {
        u64::MAX as int
    }
    &&& forall|k: Seq<u8>| #[trigger] q.asked.contains(k) <==> is_asked(w, target, k)
    &&& forall|k: Seq<u8>| #[trigger]
        is_asked(w, target, k) ==> is_told(
            w,
            w2.out,
            PktType::AddrQuery,
            0,
            k,
            addr_query_bytes(target, nonce, 0),
        )
    &&& forall|s: u32| #[trigger]
        q.fail_seqs.contains(s) <==> has_key(w.net.failed_sends, (target, s))
    &&& appears(
        w2.out,
        w.out.len() as int,
        OutView::Event(EventView::Status(asking_text(target, q.asked.len()))),
    )
}

/// A search for a friend's address asks every other friend; one for ourselves,
/// for someone who is no friend, or with nobody to ask is refused, and that is
/// all.
pub proof fn law_search_asks_all(w: World, w2: World, recipient: [u8; 32], now: Moment)
    requires
        obeys(w, w2, NetCommand::FindAddress { recipient }, now),
    ensures
        ({
            let target = recipient@;
            let why = if target == w.net.me.ed_pub {
                Some("不能查询自己"@)
            } else if !has_friend(w.book, target) {
                Some("目标不是好友"@)
            } else if forall|k: Seq<u8>| !(#[trigger] is_asked(w, target, k)) {
                Some("没有可询问的共同好友"@)
            } else {
                None
            };
            match why {
                Some(text) => w2 == (World {
                    out: w.out.push(OutView::Event(EventView::Status(text))),
                    ..w
                }),
                None => {
                    &&& exists|nonce: Seq<u8>, q: QueryView| #[trigger]
                        search_opened(w, w2, target, nonce, q, now.tick)
                    &&& continues(w.out, w2.out)
                    &&& w2.book == w.book
                    &&& w2.net == (NetState { addr_queries: w2.net.addr_queries, ..w.net })
                },
            }
        }),
{
    let target = recipient@;
    let peers = keys_but(friend_keys(w.book), target);
    let to = sealable(peers, 53);
    assert forall|k: Seq<u8>| #[trigger] to.contains(k) <==> is_asked(w, target, k) by {
        lemma_friend_keys(w.book, k);
        lemma_keys_but(friend_keys(w.book), target, k);
        lemma_sealable(peers, 53, k);
    }
    if to.len() > 0 {
        assert(to.contains(to[0]));
    } else {
        assert forall|k: Seq<u8>| !(#[trigger] is_asked(w, target, k)) by {
            assert(!to.contains(k));
        }
    }
    if target != w.net.me.ed_pub && has_friend(w.book, target) && to.len() > 0 {
        assert(is_asked(w, target, to[0]));
        let (a, nonce) = choose|a: World, nonce: Seq<u8>|
            nonce.len() == 16 && #[trigger] asks(w, a, peers, target, nonce) && w2
                == query_opened(w, a, target, nonce, now.tick);
        let inner = addr_query_bytes(target, nonce, 0);
        assert(inner.len() == 53);
        let packets = choose|packets: Seq<Seq<u8>>|
            are_sealed_for(w.net.me, PktType::AddrQuery, 0, to, inner, packets) && a
                == #[trigger] peers_sent(w, to, packets);
        lemma_round(w, to, packets);
        let q = new_query(w, target, now.tick);
        let other = nonce.push(0);
        assert(other.len() != nonce.len());
        law_table(w.net.addr_queries, nonce, q, other);
        let e = OutView::Event(EventView::Status(asking_text(target, q.asked.len())));
        assert(w2.out[w2.out.len() - 1] == e);
        assert(continues(a.out, w2.out));
        lemma_continues_trans(w.out, a.out, w2.out);
        assert forall|k: Seq<u8>| #[trigger] is_asked(w, target, k) implies is_told(
            w,
            w2.out,
            PktType::AddrQuery,
            0,
            k,
            inner,
        ) by {
            assert(to.contains(k));
            lemma_round_tells(w, PktType::AddrQuery, 0, to, inner, packets, k);
            let packet = choose|packet: Seq<u8>| #[trigger]
                is_sealed_packet(w.net.me, PktType::AddrQuery, 0, 0, k, inner, packet)
                    && reaches(w, a.out, k, packet);
            lemma_reaches_later(w, w, a.out, w2.out, k, packet);
        }
        assert forall|s: u32| #[trigger]
            q.fail_seqs.contains(s) <==> has_key(w.net.failed_sends, (target, s)) by {
            lemma_failed_numbers(w.net.failed_sends, target, s);
        }
        assert(search_opened(w, w2, target, nonce, q, now.tick));
    }
}

/// Whether a datagram is an encrypted packet to one of those who may be asked.
pub open spec fn goes_to_asked(
    w: World,
    o: OutView,
    target: Seq<u8>,
    nonce: Seq<u8>,
    k: Seq<u8>,
) -> bool {
    is_asked(w, target, k) && exists|packet: Seq<u8>| #[trigger]
        is_sealed_packet(
            w.net.me,
            PktType::AddrQuery,
            0,
            0,
            k,
            addr_query_bytes(target, nonce, 0),
            packet,
        ) && is_sent_to(w, o, k, packet)
}

/// A search asks nobody but those who may be asked; above all not the one who
/// is sought.
pub proof fn law_search_asks_nobody_else(
    w: World,
    w2: World,
    recipient: [u8; 32],
    now: Moment,
    i: int,
)
    requires
        obeys(w, w2, NetCommand::FindAddress { recipient }, now),
        w.out.len() <= i < w2.out.len(),
        w2.out[i] is Send,
    ensures
        exists|nonce: Seq<u8>, k: Seq<u8>| #[trigger]
            goes_to_asked(w, w2.out[i], recipient@, nonce, k),
{
    let target = recipient@;
    let peers = keys_but(friend_keys(w.book), target);
    let to = sealable(peers, 53);
    if target != w.net.me.ed_pub && has_friend(w.book, target) && to.len() > 0 {
        let (a, nonce) = choose|a: World, nonce: Seq<u8>|
            nonce.len() == 16 && #[trigger] asks(w, a, peers, target, nonce) && w2
                == query_opened(w, a, target, nonce, now.tick);
        let inner = addr_query_bytes(target, nonce, 0);
        assert(inner.len() == 53);
        let packets = choose|packets: Seq<Seq<u8>>|
            are_sealed_for(w.net.me, PktType::AddrQuery, 0, to, inner, packets) && a
                == #[trigger] peers_sent(w, to, packets);
        assert(w2.out[i] == a.out[i]);
        lemma_round_only(w, to, packets, i);
        let j = choose|j: int| #[trigger]
            is_sent_to(w, a.out[i], to[j], packets[j]) && 0 <= j < packets.len();
        let k = to[j];
        assert(to.contains(k));
        lemma_friend_keys(w.book, k);
        lemma_keys_but(friend_keys(w.book), target, k);
        lemma_sealable(peers, 53, k);
        assert(is_sealed_packet(w.net.me, PktType::AddrQuery, 0, 0, k, inner, packets[j]));
        assert(goes_to_asked(w, w2.out[i], target, nonce, k));
    }
}

/// The command to quit asks nothing of the network.
pub proof fn law_quit_is_silent(w: World, w2: World, now: Moment)
    requires
        obeys(w, w2, NetCommand::Quit, now),
    ensures
        w2 == w,
{
}

/// Why a message is refused: it is too long, or else the recipient's key cannot
/// be used, or else the recipient is no friend.
pub proof fn law_send_refusal(w: World, id: Seq<u8>, content: Seq<char>)
    ensures
        send_refusal(w.book, id, content) is None <==> may_send(w, id, content),
        send_refusal(w.book, id, content) == Some(NetError::MessageTooLong) <==> encode_utf8(
            content,
        ).len() > 3000,
        send_refusal(w.book, id, content) == Some(NetError::NoKey) <==> encode_utf8(content).len()
            <= 3000 && primitives::edwards_to_montgomery(id) is None,
        send_refusal(w.book, id, content) == Some(NetError::NotFriend) <==> encode_utf8(
            content,
        ).len() <= 3000 && primitives::edwards_to_montgomery(id) is Some && !has_friend(
            w.book,
            id,
        ),
{
}

// ---------- packets without encryption ----------

/// A ping or a pong is read as what it was made from, and as ours.
pub proof fn law_plain_packet(me: Me, ptype: PktType, recipient: Seq<u8>, payload: Seq<u8>)
    requires
        me.ed_pub.len() == 32,
        recipient.len() == 32,
        payload.len() <= 0x7fff_0000,
        plain_packet(me, ptype, recipient, payload).len() == 82 + payload.len() + 64,
    ensures
        decoded(plain_packet(me, ptype, recipient, payload)) matches Ok(d) && d.packet.ptype
            == ptype && d.packet.sender_id == me.ed_pub && d.packet.recipient_id == recipient
            && d.packet.payload == payload && d.packet.flags == 0 && d.packet.seq == 0
            && d.signature == primitives::ed25519_signature(me.seed, unsigned_bytes(d.packet)),
{
    let p = PacketView {
        ptype,
        flags: 0,
        seq: 0,
        sender_id: me.ed_pub,
        recipient_id: recipient,
        payload,
    };
    lemma_unsigned_len(p);
    let sig = primitives::ed25519_signature(me.seed, unsigned_bytes(p));
    assert(plain_packet(me, ptype, recipient, payload) == unsigned_bytes(p) + sig);
    assert(sig.len() == 64);
    law_packet_round_trip(p, sig);
}

} // verus!
