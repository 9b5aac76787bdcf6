//! What the network layer promises as a whole: messages and acknowledgements
//! arrive, repeats are not shown twice, and addresses are told to friends only.

use vstd::prelude::*;
use vstd::utf8::encode_utf8;

use crate::bytes::be32;
use crate::crypto::primitives;
use crate::net::announce::announce_delivered;
use crate::net::attach::assembled;
use crate::net::driver::{
    accepted, follows_up, handles, lemma_noted_seen, lemma_resent, packet_step, taken_for,
};
use crate::net::event::{EventView, Moment, OutView};
use crate::net::ip::{ip_port_text, AddrView};
use crate::net::lookup::{addr_query_step, answer_ips, answer_to, sends_answer};
use crate::net::messages::{acked, number_marked, plain_step, sends_ack};
use crate::net::node::{
    emitted, is_sealed_packet, noted_seen, payload_plain, resent, route, Me, NetError, NetState,
    PushView, World,
};
use crate::net::packet::{decoded, PacketView, PktType, FLAG_ACK};
use crate::net::pushes::{
    are_push_packets, delivered, delivers_pushes, gossip_stored, may_hand_on, push_stored,
    pushes_for, pushes_sent, told,
};
use crate::net::session::{marked, session_of};
use crate::table::{
    has_key, key_index, law_table, lemma_key_index, lemma_without, lookup, put, without,
};
use crate::proto::{
    chunk_body, chunk_inner, law_ack_round_trip, law_chunk_round_trip, law_msg_round_trip,
    lemma_chunk_is_message, msg_inner, ChunkView, NAME_MAX,
};
use crate::store::friends::{book_merged, book_seen, friend_of, has_friend, FriendView};

verus! {

// ---------- outputs ----------

/// Whether `b` is `a` with datagrams and signs of life after it.
pub open spec fn quietly_extends(a: Seq<OutView>, b: Seq<OutView>) -> bool {
    &&& a.len() <= b.len()
    &&& forall|i: int| 0 <= i < a.len() ==> #[trigger] b[i] == a[i]
    &&& forall|i: int|
        a.len() <= i < b.len() ==> (#[trigger] b[i] is Send || b[i]
            matches OutView::Event(EventView::FriendSeen { .. }))
}

pub proof fn lemma_extends_trans(a: Seq<OutView>, b: Seq<OutView>, c: Seq<OutView>)
    requires
        quietly_extends(a, b),
        quietly_extends(b, c),
    ensures
        quietly_extends(a, c),
{
    assert forall|i: int| 0 <= i < a.len() implies #[trigger] c[i] == a[i] by {
        assert(b[i] == a[i]);
    }
    assert forall|i: int| a.len() <= i < c.len() implies (#[trigger] c[i] is Send || c[i]
        matches OutView::Event(EventView::FriendSeen { .. })) by {
        if i < b.len() {
            assert(c[i] == b[i]);
        }
    }
}

pub proof fn lemma_extends_contains(a: Seq<OutView>, b: Seq<OutView>, o: OutView)
    requires
        quietly_extends(a, b),
        a.contains(o),
    ensures
        b.contains(o),
{
    let i = choose|i: int| 0 <= i < a.len() && a[i] == o;
    assert(b[i] == o);
}

proof fn lemma_resent_out(
    w: World,
    failed: Seq<((Seq<u8>, u32), Seq<u8>)>,
    who: Seq<u8>,
    now: u64,
    key: (Seq<u8>, u32),
)
    ensures
        quietly_extends(w.out, resent(w, failed, who, now).out),
        has_key(w.net.retx, key) ==> has_key(resent(w, failed, who, now).net.retx, key),
    decreases failed.len(),
{
    if failed.len() > 0 {
        let front = resent(w, failed.drop_last(), who, now);
        let all = resent(w, failed, who, now);
        lemma_resent_out(w, failed.drop_last(), who, now, key);
        assert(quietly_extends(front.out, all.out));
        lemma_extends_trans(w.out, front.out, all.out);
        if failed.last().0.0 == who {
            let k = (who, failed.last().0.1);
            lemma_put_keeps(front.net.retx, k, key);
        }
    }
}

/// Setting a value drops no key.
proof fn lemma_put_keeps<A, B>(s: Seq<(A, B)>, k: A, key: A)
    ensures
        forall|v: B| has_key(s, key) ==> has_key(#[trigger] put(s, k, v), key),
{
    assert forall|v: B| has_key(s, key) implies has_key(#[trigger] put(s, k, v), key) by {
        lemma_key_index(s, key);
        lemma_key_index(s, k);
        lemma_key_index(put(s, k, v), key);
        let i = key_index(s, key);
        assert(put(s, k, v)[i].0 == key);
    }
}

/// Traffic of a friend only shows that it is online, and drops no waiting
/// packet.
pub proof fn lemma_noted_out(w: World, who: Seq<u8>, ip: Seq<char>, now: Moment, key: (Seq<u8>, u32))
    ensures
        quietly_extends(w.out, noted_seen(w, who, ip, now).out),
        has_key(w.net.retx, key) ==> has_key(noted_seen(w, who, ip, now).net.retx, key),
{
    let book = book_seen(w.book, who, Some(ip), now.unix);
    let e = emitted(World { book, unsaved: true, ..w }, EventView::FriendSeen { peer: who });
    assert(quietly_extends(w.out, e.out));
    lemma_resent_out(e, e.net.failed_sends, who, now.tick, key);
    let r = resent(e, e.net.failed_sends, who, now.tick);
    lemma_extends_trans(w.out, e.out, r.out);
}

pub proof fn lemma_pushes_sent_out(
    w: World,
    victim: Seq<u8>,
    list: Seq<PushView>,
    packets: Seq<Seq<u8>>,
    now: u64,
)
    ensures
        quietly_extends(w.out, pushes_sent(w, victim, list, packets, now).out),
        pushes_sent(w, victim, list, packets, now).net == w.net,
        pushes_sent(w, victim, list, packets, now).book == w.book,
    decreases packets.len(),
{
    if packets.len() > 0 {
        let front = pushes_sent(w, victim, list, packets.drop_last(), now);
        lemma_pushes_sent_out(w, victim, list, packets.drop_last(), now);
        let all = pushes_sent(w, victim, list, packets, now);
        assert(quietly_extends(front.out, all.out));
        lemma_extends_trans(w.out, front.out, all.out);
    }
}

/// What follows a packet only sends datagrams, and touches only the pushes.
pub proof fn lemma_follow_up_out(w: World, w2: World, peer: Seq<u8>, src: AddrView, now: u64)
    requires
        follows_up(w, w2, peer, src, now),
    ensures
        quietly_extends(w.out, w2.out),
        w2.net == (NetState { pending_pushes: w2.net.pending_pushes, ..w.net }),
        w2.book == w.book,
{
    let c = choose|c: World| #[trigger]
        delivers_pushes(w, c, peer, now) && w2 == announce_delivered(c, peer, src);
    lemma_delivers_out(w, c, peer, now);
    assert(quietly_extends(c.out, w2.out));
    lemma_extends_trans(w.out, c.out, w2.out);
}

pub proof fn lemma_delivers_out(w: World, c: World, peer: Seq<u8>, now: u64)
    requires
        delivers_pushes(w, c, peer, now),
    ensures
        quietly_extends(w.out, c.out),
        c.net == (NetState { pending_pushes: c.net.pending_pushes, ..w.net }),
        c.book == w.book,
{
    let packets = choose|packets: Seq<Seq<u8>>|
        are_push_packets(
            w.net.me,
            peer,
            pushes_for(w.net, peer),
            packets,
            now,
        ) && c == #[trigger] delivered(w, peer, packets, now);
    match lookup(w.net.pending_pushes, peer) {
        Some(list) => {
            lemma_pushes_sent_out(w, peer, list, packets, now);
        },
        None => {},
    }
}

// ---------- messages ----------

/// An acknowledgement of a number that goes to an address.
pub open spec fn is_ack_to(o: OutView, w: World, peer: Seq<u8>, seq: u32, src: AddrView) -> bool {
    o matches OutView::Send { to, bytes } && to == route(w.net.use_v6, src) && is_sealed_packet(
        w.net.me,
        PktType::MsgAck,
        FLAG_ACK,
        seq,
        peer,
        be32(seq),
        bytes,
    )
}

/// Whether an acknowledgement goes out.
pub open spec fn acknowledges(w: World, w2: World, peer: Seq<u8>, seq: u32, src: AddrView) -> bool {
    exists|i: int|
        w.out.len() <= i < w2.out.len() && is_ack_to(#[trigger] w2.out[i], w, peer, seq, src)
}

proof fn lemma_ack_kept(
    w: World,
    a: World,
    b: World,
    c: World,
    w2: World,
    peer: Seq<u8>,
    seq: u32,
    src: AddrView,
)
    requires
        quietly_extends(w.out, a.out),
        a.net.me == w.net.me,
        a.net.use_v6 == w.net.use_v6,
        sends_ack(a, b, peer, seq, src),
        b.out.len() <= c.out.len(),
        forall|i: int| 0 <= i < b.out.len() ==> #[trigger] c.out[i] == b.out[i],
        quietly_extends(c.out, w2.out),
    ensures
        acknowledges(w, w2, peer, seq, src),
{
    let i = b.out.len() - 1;
    assert(is_ack_to(b.out[i], w, peer, seq, src));
    assert(c.out[i] == b.out[i]);
    assert(w2.out[i] == c.out[i]);
}

/// A text message that a friend sealed for us and that has not come in before
/// is handed on, is acknowledged to where it came from, and is remembered.
pub proof fn law_message_arrives(
    w: World,
    w2: World,
    bytes: Seq<u8>,
    src: AddrView,
    now: Moment,
    r: Result<(), NetError>,
    peer: Me,
    flags: u8,
    seq: u32,
    content: Seq<char>,
    ts: u64,
)
    requires
        packet_step(w, w2, bytes, src, now, r),
        taken_for(w.net.me, w.book, bytes, peer, PktType::Msg, flags, seq, msg_inner(content, ts)),
        encode_utf8(content).len() <= u32::MAX,
        !session_of(w.net.sessions, peer.ed_pub).contains(seq),
    ensures
        r is Ok,
        w2.out.contains(
            OutView::Event(
                EventView::MessageReceived { peer: peer.ed_pub, content, seq, ts },
            ),
        ),
        acknowledges(w, w2, peer.ed_pub, seq, src),
        session_of(w2.net.sessions, peer.ed_pub).contains(seq),
{
    let p = accepted(w.net.me, w.book, bytes)->Ok_0;
    let ip = ip_port_text(src.ip(), src.port());
    let a = noted_seen(w, p.sender_id, ip, now);
    lemma_noted_seen(w, p.sender_id, ip, now);
    lemma_noted_out(w, p.sender_id, ip, now, (p.sender_id, 0));
    law_msg_round_trip(content, ts);
    let b = choose|b: World| #[trigger]
        handles(a, b, p, src, now, r) && if r is Ok {
            follows_up(b, w2, p.sender_id, src, now.tick)
        } else {
            w2 == b
        };
    let m = number_marked(a, p.sender_id, p.seq);
    let e = EventView::MessageReceived { peer: p.sender_id, content, seq: p.seq, ts };
    assert(plain_step(m, b, p, msg_inner(content, ts), src, now.tick, r));
    let k = choose|k: World| #[trigger]
        sends_ack(m, k, p.sender_id, p.seq, src) && b == emitted(k, e);
    lemma_follow_up_out(b, w2, p.sender_id, src, now.tick);
    assert(b.out[b.out.len() - 1] == OutView::Event(e));
    lemma_extends_contains(b.out, w2.out, OutView::Event(e));
    lemma_ack_kept(w, m, k, b, w2, peer.ed_pub, seq, src);
    let s = session_of(w.net.sessions, peer.ed_pub);
    lemma_marked(s, seq);
    lemma_session_put(a.net.sessions, peer.ed_pub, marked(s, seq));
}

/// A message that came in before is acknowledged again and not handed on
/// again.
pub proof fn law_repeat_is_acknowledged_only(
    w: World,
    w2: World,
    bytes: Seq<u8>,
    src: AddrView,
    now: Moment,
    r: Result<(), NetError>,
    p: PacketView,
)
    requires
        packet_step(w, w2, bytes, src, now, r),
        accepted(w.net.me, w.book, bytes) == Ok::<PacketView, NetError>(p),
        p.ptype == PktType::Msg,
        session_of(w.net.sessions, p.sender_id).contains(p.seq),
        primitives::edwards_to_montgomery(p.sender_id) is Some,
    ensures
        r is Ok,
        acknowledges(w, w2, p.sender_id, p.seq, src),
        quietly_extends(w.out, w2.out),
{
    let ip = ip_port_text(src.ip(), src.port());
    let a = noted_seen(w, p.sender_id, ip, now);
    lemma_noted_seen(w, p.sender_id, ip, now);
    lemma_noted_out(w, p.sender_id, ip, now, (p.sender_id, 0));
    let b = choose|b: World| #[trigger]
        handles(a, b, p, src, now, r) && if r is Ok {
            follows_up(b, w2, p.sender_id, src, now.tick)
        } else {
            w2 == b
        };
    let m = number_marked(a, p.sender_id, p.seq);
    assert(sends_ack(m, b, p.sender_id, p.seq, src));
    lemma_follow_up_out(b, w2, p.sender_id, src, now.tick);
    lemma_ack_kept(w, m, b, b, w2, p.sender_id, p.seq, src);
    assert(quietly_extends(m.out, b.out));
    lemma_extends_trans(w.out, m.out, b.out);
    lemma_extends_trans(w.out, b.out, w2.out);
}

pub proof fn lemma_marked(s: Seq<u32>, seq: u32)
    ensures
        marked(s, seq).contains(seq),
{
    if !s.contains(seq) {
        let t = s.push(seq);
        let m = marked(s, seq);
        assert(m[m.len() - 1] == t[t.len() - 1]);
    }
}

pub proof fn lemma_session_put(sessions: Seq<(Seq<u8>, Seq<u32>)>, peer: Seq<u8>, s: Seq<u32>)
    ensures
        session_of(put(sessions, peer, s), peer) == s,
{
    law_table(sessions, peer, s, peer.push(0));
    assert(peer.push(0).len() != peer.len());
}

/// An acknowledgement that a friend sealed for us ends the retransmission of
/// the message and reports it.
pub proof fn law_ack_arrives(
    w: World,
    w2: World,
    bytes: Seq<u8>,
    src: AddrView,
    now: Moment,
    r: Result<(), NetError>,
    peer: Me,
    flags: u8,
    number: u32,
    seq: u32,
)
    requires
        packet_step(w, w2, bytes, src, now, r),
        taken_for(w.net.me, w.book, bytes, peer, PktType::MsgAck, flags, number, be32(seq)),
        has_key(w.net.retx, (peer.ed_pub, seq)),
        !has_key(w.net.chunk_seqs, seq),
    ensures
        r is Ok,
        w2.out.contains(OutView::Event(EventView::MessageAcked { peer: peer.ed_pub, seq })),
        !has_key(w2.net.retx, (peer.ed_pub, seq)),
        !has_key(w2.net.failed_sends, (peer.ed_pub, seq)),
{
    let p = accepted(w.net.me, w.book, bytes)->Ok_0;
    let key = (peer.ed_pub, seq);
    let ip = ip_port_text(src.ip(), src.port());
    let a = noted_seen(w, p.sender_id, ip, now);
    lemma_noted_seen(w, p.sender_id, ip, now);
    lemma_noted_out(w, p.sender_id, ip, now, key);
    law_ack_round_trip(seq);
    let b = choose|b: World| #[trigger]
        handles(a, b, p, src, now, r) && if r is Ok {
            follows_up(b, w2, p.sender_id, src, now.tick)
        } else {
            w2 == b
        };
    assert(b == acked(a, peer.ed_pub, seq));
    let e = EventView::MessageAcked { peer: peer.ed_pub, seq };
    assert(b.out[b.out.len() - 1] == OutView::Event(e));
    lemma_follow_up_out(b, w2, p.sender_id, src, now.tick);
    lemma_extends_contains(b.out, w2.out, OutView::Event(e));
    lemma_without(a.net.retx, key);
    lemma_key_index(without(a.net.retx, key), key);
    lemma_without(a.net.failed_sends, key);
    lemma_key_index(without(a.net.failed_sends, key), key);
}

/// A chunk that a friend sealed for us and that has not come in before takes
/// its place in the attachment; if it was the last one missing, the
/// attachment is handed on.
pub proof fn law_chunk_arrives(
    w: World,
    w2: World,
    bytes: Seq<u8>,
    src: AddrView,
    now: Moment,
    r: Result<(), NetError>,
    peer: Me,
    flags: u8,
    seq: u32,
    c: ChunkView,
    ts: u64,
)
    requires
        packet_step(w, w2, bytes, src, now, r),
        taken_for(w.net.me, w.book, bytes, peer, PktType::Msg, flags, seq, chunk_inner(c, ts)),
        !session_of(w.net.sessions, peer.ed_pub).contains(seq),
        c.transfer.len() == 16,
        encode_utf8(c.name).len() <= NAME_MAX,
        chunk_body(c).len() <= u32::MAX,
    ensures
        ({
            let all = assembled(w, peer.ed_pub, ts, c, now.tick);
            &&& r is Ok
            &&& acknowledges(w, w2, peer.ed_pub, seq, src)
            &&& w2.net.attach_recvs == all.net.attach_recvs
            &&& all.out.len() > w.out.len() ==> w2.out.contains(all.out.last())
        }),
{
    let p = accepted(w.net.me, w.book, bytes)->Ok_0;
    let ip = ip_port_text(src.ip(), src.port());
    let a = noted_seen(w, p.sender_id, ip, now);
    lemma_noted_seen(w, p.sender_id, ip, now);
    lemma_noted_out(w, p.sender_id, ip, now, (p.sender_id, 0));
    law_chunk_round_trip(c, ts);
    lemma_chunk_is_message(c, ts);
    let b = choose|b: World| #[trigger]
        handles(a, b, p, src, now, r) && if r is Ok {
            follows_up(b, w2, p.sender_id, src, now.tick)
        } else {
            w2 == b
        };
    let m = number_marked(a, p.sender_id, p.seq);
    assert(plain_step(m, b, p, chunk_inner(c, ts), src, now.tick, r));
    let k = choose|k: World| #[trigger]
        sends_ack(m, k, p.sender_id, p.seq, src) && b == assembled(k, p.sender_id, ts, c, now.tick);
    lemma_follow_up_out(b, w2, p.sender_id, src, now.tick);
    lemma_ack_kept(w, m, k, b, w2, peer.ed_pub, seq, src);
    let all = assembled(w, peer.ed_pub, ts, c, now.tick);
    if all.out.len() > w.out.len() {
        assert(b.out[b.out.len() - 1] == all.out.last());
        lemma_extends_contains(b.out, w2.out, all.out.last());
    }
}

// ---------- who is told what ----------

/// A datagram that is not from a friend, or not for us, changes nothing and
/// is not answered.
pub proof fn law_strangers_are_ignored(
    w: World,
    w2: World,
    bytes: Seq<u8>,
    src: AddrView,
    now: Moment,
    r: Result<(), NetError>,
)
    requires
        packet_step(w, w2, bytes, src, now, r),
        decoded(bytes) matches Ok(d) ==> d.packet.recipient_id != w.net.me.ed_pub || !has_friend(
            w.book,
            d.packet.sender_id,
        ),
    ensures
        r is Err,
        w2 == w,
{
}

/// Addresses are told only to a friend, and only those of a friend.
pub proof fn law_addresses_among_friends(book: Seq<FriendView>, asker: Seq<u8>, target: Seq<u8>)
    requires
        answer_ips(book, asker, target).len() > 0,
    ensures
        has_friend(book, asker),
        has_friend(book, target),
        answer_ips(book, asker, target) == friend_of(book, target)->0.ips,
{
}

/// An address query is not passed on: it opens no query of our own, leaves
/// the friend list alone and causes no event.
pub proof fn law_query_single_hop(
    w: World,
    w2: World,
    p: PacketView,
    src: AddrView,
    now: u64,
    r: Result<(), NetError>,
)
    requires
        addr_query_step(w, w2, p, src, now, r),
    ensures
        w2.net == (NetState { pending_pushes: w2.net.pending_pushes, ..w.net }),
        w2.book == w.book,
        quietly_extends(w.out, w2.out),
{
    if r is Ok {
        let inner = answer_to(w.book, p.sender_id, payload_plain(w.net.me, p)->Ok_0);
        let a = choose|a: World| #[trigger]
            sends_answer(w, a, p.sender_id, inner, src) && delivers_pushes(
                a,
                w2,
                p.sender_id,
                now,
            );
        assert(quietly_extends(w.out, a.out));
        lemma_delivers_out(a, w2, p.sender_id, now);
        lemma_extends_trans(w.out, a.out, w2.out);
    }
}

/// What a friend asks us to hand on is kept for friends of ours only, and
/// never for that friend or for ourselves.
pub proof fn law_gossip_for_friends_only(
    w: World,
    source: Seq<u8>,
    victims: Seq<Seq<u8>>,
    ips: Seq<Seq<char>>,
    now: u64,
    victim: Seq<u8>,
)
    requires
        lookup(gossip_stored(w, source, victims, ips, now), victim) != lookup(
            w.net.pending_pushes,
            victim,
        ),
    ensures
        victims.contains(victim),
        has_friend(w.book, victim),
        victim != source,
        victim != w.net.me.ed_pub,
    decreases victims.len(),
{
    if victims.len() > 0 {
        let rest = victims.drop_last();
        let front = gossip_stored(w, source, rest, ips, now);
        let v = victims.last();
        if lookup(front, victim) != lookup(w.net.pending_pushes, victim) {
            law_gossip_for_friends_only(w, source, rest, ips, now, victim);
            let i = rest.index_of(victim);
            assert(victims[i] == victim);
        } else {
            assert(may_hand_on(w, source, v));
            if victim != v {
                let all = push_stored(front, v, source, ips, now);
                if all != front {
                    lemma_put_other(front, v, victim);
                }
            }
            assert(victims[victims.len() - 1] == v);
        }
    }
}

proof fn lemma_put_other<A, B>(s: Seq<(A, B)>, k: A, other: A)
    requires
        other != k,
    ensures
        forall|v: B| lookup(#[trigger] put(s, k, v), other) == lookup(s, other),
{
    assert forall|v: B| lookup(#[trigger] put(s, k, v), other) == lookup(s, other) by {
        law_table(s, k, v, other);
    }
}

/// An address that is handed to us is taken only if it is of a friend, and
/// then it is added to that friend; the others keep theirs.
pub proof fn law_push_for_friends_only(w: World, source: Seq<u8>, ips: Seq<Seq<char>>, now: u64)
    requires
        told(w, source, ips, now) != w,
    ensures
        has_friend(w.book, source),
        source != w.net.me.ed_pub,
        told(w, source, ips, now).book == book_merged(w.book, source, ips),
{
    lemma_resent(
        World { book: book_merged(w.book, source, ips), unsaved: true, ..w },
        w.net.failed_sends,
        source,
        now,
    );
}

} // verus!
