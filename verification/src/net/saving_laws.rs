//! No change of the friend list is lost: whatever a packet changes in it is
//! marked as still to be saved.

use vstd::prelude::*;

use crate::net::announce::{announce_delivered, ip_changed_step, moved};
use crate::net::driver::{accepted, follows_up, handles, lemma_resent, packet_step};
use crate::net::event::{EventView, Moment};
use crate::net::ip::{ip_port_text, AddrView};
use crate::net::lookup::{addr_query_step, answer_to, answered, numbers_resent, sends_answer};
use crate::net::messages::msg_step;
use crate::net::node::{
    emitted, noted_seen, payload_plain, retried_failed, NetError, NetState, PushView, World,
};
use crate::net::packet::{PacketView, PktType};
use crate::net::pushes::{
    are_push_packets, delivered, delivers_all_by, delivers_pushes, gossip_present, gossip_step,
    gossip_taken, push_step, pushes_for, pushes_sent,
};
use crate::proto::addressing::{addr_answer_of, gossip_of, ip_changed_of, push_ip_of, AnswerView};
use crate::store::friends::{book_merged, book_seen};
use crate::table::{lookup, without};

verus! {

/// Whether every change of the friend list from `w` to `w2` is marked as still
/// to be saved, as are those from before.
pub open spec fn marks_changes(w: World, w2: World) -> bool {
    &&& w.unsaved ==> w2.unsaved
    &&& w2.book != w.book ==> w2.unsaved
}

proof fn lemma_retried(w: World, who: Seq<u8>, now: u64)
    ensures
        retried_failed(w, who, now).book == w.book,
        retried_failed(w, who, now).unsaved == w.unsaved,
{
    lemma_resent(w, w.net.failed_sends, who, now);
}

proof fn lemma_pushes(
    w: World,
    victim: Seq<u8>,
    list: Seq<PushView>,
    packets: Seq<Seq<u8>>,
    now: u64,
)
    ensures
        pushes_sent(w, victim, list, packets, now).book == w.book,
        pushes_sent(w, victim, list, packets, now).unsaved == w.unsaved,
    decreases packets.len(),
{
    if packets.len() > 0 {
        lemma_pushes(w, victim, list, packets.drop_last(), now);
    }
}

proof fn lemma_delivers(w: World, w2: World, victim: Seq<u8>, now: u64)
    requires
        delivers_pushes(w, w2, victim, now),
    ensures
        w2.book == w.book,
        w2.unsaved == w.unsaved,
{
    let packets = choose|packets: Seq<Seq<u8>>|
        are_push_packets(w.net.me, victim, pushes_for(w.net, victim), packets, now) && w2
            == #[trigger] delivered(w, victim, packets, now);
    lemma_pushes(w, victim, pushes_for(w.net, victim), packets, now);
}

proof fn lemma_delivers_all(
    w: World,
    victims: Seq<Seq<u8>>,
    steps: Seq<World>,
    now: u64,
    i: int,
)
    requires
        steps.len() == victims.len() + 1,
        steps[0] == w,
        forall|k: int|
            #![trigger victims[k]]
            0 <= k < victims.len() ==> delivers_pushes(steps[k], steps[k + 1], victims[k], now),
        0 <= i < steps.len(),
    ensures
        steps[i].book == w.book,
        steps[i].unsaved == w.unsaved,
    decreases i,
{
    if i > 0 {
        lemma_delivers_all(w, victims, steps, now, i - 1);
        assert(victims[i - 1] == victims[i - 1]);
        lemma_delivers(steps[i - 1], steps[i], victims[i - 1], now);
    }
}

proof fn lemma_numbers(w: World, target: Seq<u8>, seqs: Seq<u32>, now: u64)
    ensures
        numbers_resent(w, target, seqs, now).book == w.book,
        numbers_resent(w, target, seqs, now).unsaved == w.unsaved,
    decreases seqs.len(),
{
    if seqs.len() > 0 {
        lemma_numbers(w, target, seqs.drop_last(), now);
    }
}

proof fn lemma_answered(w: World, peer: Seq<u8>, a: AnswerView, now: u64)
    ensures
        marks_changes(w, answered(w, peer, a, now)),
{
    match lookup(w.net.addr_queries, a.nonce_q) {
        Some(q) => {
            let w1 = World {
                net: NetState {
                    addr_queries: without(w.net.addr_queries, a.nonce_q),
                    ..w.net
                },
                ..w
            };
            let book = book_merged(w1.book, q.target, a.ips);
            let pre = World { book, unsaved: true, ..w1 };
            lemma_retried(pre, q.target, now);
            lemma_numbers(w1, q.target, q.fail_seqs, now);
            lemma_numbers(retried_failed(pre, q.target, now), q.target, q.fail_seqs, now);
        },
        None => {},
    }
}

proof fn lemma_query(
    w: World,
    w2: World,
    p: PacketView,
    src: AddrView,
    now: u64,
    r: Result<(), NetError>,
)
    requires
        addr_query_step(w, w2, p, src, now, r),
    ensures
        marks_changes(w, w2),
{
    match payload_plain(w.net.me, p) {
        Ok(plain) => {
            if r is Ok {
                let inner = answer_to(w.book, p.sender_id, plain);
                let a = choose|a: World| #[trigger]
                    sends_answer(w, a, p.sender_id, inner, src) && delivers_pushes(
                        a,
                        w2,
                        p.sender_id,
                        now,
                    );
                lemma_delivers(a, w2, p.sender_id, now);
            }
        },
        Err(_) => {},
    }
}

proof fn lemma_ip_changed(
    w: World,
    w2: World,
    p: PacketView,
    src: AddrView,
    now: Moment,
    r: Result<(), NetError>,
)
    requires
        ip_changed_step(w, w2, p, src, now, r),
    ensures
        marks_changes(w, w2),
{
    match payload_plain(w.net.me, p) {
        Ok(plain) => match ip_changed_of(plain) {
            Ok((_, ips)) => {
                let seen = book_seen(
                    w.book,
                    p.sender_id,
                    Some(ip_port_text(src.ip(), src.port())),
                    now.unix,
                );
                let book = if ips.len() == 0 {
                    seen
                } else {
                    book_merged(seen, p.sender_id, ips)
                };
                lemma_retried(World { book, unsaved: true, ..w }, p.sender_id, now.tick);
                assert(marks_changes(w, moved(w, p.sender_id, src, ips, now)));
            },
            Err(_) => {},
        },
        Err(_) => {},
    }
}

proof fn lemma_gossip(w: World, w2: World, p: PacketView, now: Moment, r: Result<(), NetError>)
    requires
        gossip_step(w, w2, p, now, r),
    ensures
        marks_changes(w, w2),
{
    match payload_plain(w.net.me, p) {
        Ok(plain) => match gossip_of(plain) {
            Ok((victims, ips)) => {
                let g = gossip_taken(w, p.sender_id, victims, ips, now.tick);
                let told = gossip_present(w, p.sender_id, victims, now.unix);
                let steps = choose|steps: Seq<World>| #[trigger]
                    delivers_all_by(g, w2, told, steps, now.tick);
                lemma_delivers_all(g, told, steps, now.tick, steps.len() - 1);
            },
            Err(_) => {},
        },
        Err(_) => {},
    }
}

proof fn lemma_push(w: World, w2: World, p: PacketView, now: u64, r: Result<(), NetError>)
    requires
        push_step(w, w2, p, now, r),
    ensures
        marks_changes(w, w2),
{
    match payload_plain(w.net.me, p) {
        Ok(plain) => match push_ip_of(plain) {
            Ok((source, ips)) => {
                let book = book_merged(w.book, source, ips);
                lemma_retried(World { book, unsaved: true, ..w }, source, now);
            },
            Err(_) => {},
        },
        Err(_) => {},
    }
}

proof fn lemma_msg(
    w: World,
    w2: World,
    p: PacketView,
    src: AddrView,
    now: u64,
    r: Result<(), NetError>,
)
    requires
        msg_step(w, w2, p, src, now, r),
    ensures
        w2.book == w.book,
        w2.unsaved == w.unsaved,
{
}

/// Whatever a packet changes in the friend list is marked as still to be saved;
/// a mark from before stays.
pub proof fn law_changes_are_marked(
    w: World,
    w2: World,
    bytes: Seq<u8>,
    src: AddrView,
    now: Moment,
    r: Result<(), NetError>,
)
    requires
        packet_step(w, w2, bytes, src, now, r),
    ensures
        w.unsaved ==> w2.unsaved,
        w2.book != w.book ==> w2.unsaved,
{
    match accepted(w.net.me, w.book, bytes) {
        Ok(p) => {
            let ip = ip_port_text(src.ip(), src.port());
            let a = noted_seen(w, p.sender_id, ip, now);
            let b = choose|b: World| #[trigger]
                handles(a, b, p, src, now, r) && if r is Ok {
                    follows_up(b, w2, p.sender_id, src, now.tick)
                } else {
                    w2 == b
                };
            lemma_retried(
                emitted(
                    World {
                        book: book_seen(w.book, p.sender_id, Some(ip), now.unix),
                        unsaved: true,
                        ..w
                    },
                    EventView::FriendSeen { peer: p.sender_id },
                ),
                p.sender_id,
                now.tick,
            );
            assert(marks_changes(w, a));
            lemma_handled_marks(a, b, p, src, now, r);
            if r is Ok {
                let c = choose|c: World| #[trigger]
                    delivers_pushes(b, c, p.sender_id, now.tick) && w2
                        == announce_delivered(c, p.sender_id, src);
                lemma_delivers(b, c, p.sender_id, now.tick);
            }
        },
        Err(_) => {},
    }
}

proof fn lemma_handled_marks(
    a: World,
    b: World,
    p: PacketView,
    src: AddrView,
    now: Moment,
    r: Result<(), NetError>,
)
    requires
        handles(a, b, p, src, now, r),
    ensures
        marks_changes(a, b),
{
    match p.ptype {
        PktType::Msg => lemma_msg(a, b, p, src, now.tick, r),
        PktType::AddrQuery => lemma_query(a, b, p, src, now.tick, r),
        PktType::AddrAnswer => {
            match payload_plain(a.net.me, p) {
                Ok(plain) => match addr_answer_of(plain) {
                    Ok(v) => lemma_answered(a, p.sender_id, v, now.tick),
                    Err(_) => {},
                },
                Err(_) => {},
            }
        },
        PktType::IpChanged => lemma_ip_changed(a, b, p, src, now, r),
        PktType::Gossip => lemma_gossip(a, b, p, now, r),
        PktType::PushIp => lemma_push(a, b, p, now.tick, r),
        _ => {},
    }
}

} // verus!
