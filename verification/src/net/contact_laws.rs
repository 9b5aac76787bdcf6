//! What every packet of a friend brings about, whatever it holds.

use vstd::prelude::*;

use crate::bytes::be32;
use crate::crypto::{id, primitives};
use crate::net::announce::{announce_delivered, confirms, moved};
use crate::net::attach::assembled;
use crate::net::driver::{accepted, handles, lemma_resent, packet_step, taken_for};
use crate::net::event::{EventView, Moment, OutView};
use crate::net::ip::{ip_port_text, AddrView};
use crate::net::laws::{
    acknowledges, is_ack_to, lemma_extends_trans, lemma_marked, lemma_session_put, quietly_extends,
};
use crate::net::lookup::{answer_ips, answer_to, sends_answer};
use crate::net::messages::{acked, number_marked, plain_step};
use crate::net::node::{
    emitted, is_sealed_packet, noted_seen, payload_plain, resent, retried_failed, sent_to, Me,
    NetError, NetState, World,
};
use crate::net::packet::{decoded, law_signature_covers_all, unsigned_bytes, PacketView, PktType};
use crate::net::push_laws::{
    is_due, is_passed_on, law_pushes_are_delivered, lemma_all_delivered, lemma_gossip_stored,
    lemma_handled, lemma_passed_later,
};
use crate::net::pushes::{delivers_all_by, delivers_pushes, gossip_present, gossip_taken, told};
use crate::net::route_laws::{
    appears, continues, lemma_continues_trans, lemma_reaches_later, recorded, wire_form,
};
use crate::net::search_laws::{is_back, lemma_learnt_frame};
use crate::net::sending_laws::{has_address, lemma_has_address};
use crate::net::session::{marked, session_of};
use crate::net::tick_laws::lemma_delivery_frame;
use crate::net::traffic_laws::{
    is_reply, law_dispatched, law_failed_go_out, lemma_book_of, lemma_moved, lemma_noted,
    lemma_packet, lemma_resent_grows, lemma_seen_once, replies,
};
use crate::proto::{chunk_of, law_ack_round_trip, msg_of, ChunkView, ProtoError};
use crate::proto::addressing::{
    addr_answer_bytes, addr_answer_of, addr_query_bytes, gossip_of, ip_changed_of, push_ip_of,
    AnswerView,
};
use crate::store::friends::{
    book_merged, book_seen, friend_of, has_friend, reachable_text, seen_ips, FriendView,
};
use crate::table::{distinct_keys, law_table, lemma_lookup_push, lookup, without};

verus! {

/// Whether what is kept for someone, and who we are, is the same in two
/// worlds, of which the second follows the first.
spec fn keeps_waiting(a: World, b: World, who: Seq<u8>) -> bool {
    &&& lookup(b.net.pending_pushes, who) == lookup(a.net.pending_pushes, who)
    &&& b.net.me == a.net.me
    &&& b.net.use_v6 == a.net.use_v6
    &&& continues(a.out, b.out)
}

/// Whether nothing that a friend list says of someone's last sign of life is
/// lost.
spec fn keeps_seen(a: World, b: World, who: Seq<u8>) -> bool {
    friend_of(a.book, who) matches Some(f) ==> (friend_of(b.book, who) matches Some(g)
        && g.last_seen == f.last_seen)
}

proof fn lemma_merge_keeps_seen(fs: Seq<FriendView>, target: Seq<u8>, ips: Seq<Seq<char>>, who: Seq<u8>)
    ensures
        friend_of(fs, who) matches Some(f) ==> (friend_of(
            book_merged(fs, target, ips),
            who,
        ) matches Some(g) && g.last_seen == f.last_seen),
{
    if has_friend(fs, target) {
        lemma_book_of(fs, target, Seq::empty(), 0, ips, who);
        if id::hex_text(who) == id::hex_text(target) {
            assert(friend_of(fs, who) == friend_of(fs, target));
            assert(friend_of(book_merged(fs, target, ips), who) == friend_of(
                book_merged(fs, target, ips),
                target,
            ));
        }
    }
}

proof fn lemma_message_handled(
    a: World,
    b: World,
    p: PacketView,
    src: AddrView,
    now: Moment,
    r: Result<(), NetError>,
)
    requires
        handles(a, b, p, src, now, r),
        p.ptype == PktType::Msg,
    ensures
        keeps_waiting(a, b, p.sender_id),
        b.book == a.book,
{
    let m = number_marked(a, p.sender_id, p.seq);
    match payload_plain(a.net.me, p) {
        Ok(plain) => match msg_of(plain) {
            Ok((kind, ts, content)) => {},
            Err(_) => {},
        },
        Err(_) => {},
    }
}

proof fn lemma_answer_handled(
    a: World,
    b: World,
    p: PacketView,
    src: AddrView,
    now: Moment,
    r: Result<(), NetError>,
)
    requires
        handles(a, b, p, src, now, r),
        p.ptype == PktType::AddrAnswer,
    ensures
        keeps_waiting(a, b, p.sender_id),
        keeps_seen(a, b, p.sender_id),
{
    match payload_plain(a.net.me, p) {
        Ok(plain) => match addr_answer_of(plain) {
            Ok(ans) => match lookup(a.net.addr_queries, ans.nonce_q) {
                Some(q) => {
                    let w1 = World {
                        net: NetState {
                            addr_queries: without(a.net.addr_queries, ans.nonce_q),
                            ..a.net
                        },
                        ..a
                    };
                    lemma_learnt_frame(w1, q.target, ans.ips, q.fail_seqs, now.tick);
                    lemma_merge_keeps_seen(a.book, q.target, ans.ips, p.sender_id);
                },
                None => {},
            },
            Err(_) => {},
        },
        Err(_) => {},
    }
}

proof fn lemma_announcement_handled(
    a: World,
    b: World,
    p: PacketView,
    src: AddrView,
    now: Moment,
    r: Result<(), NetError>,
)
    requires
        handles(a, b, p, src, now, r),
        p.ptype == PktType::IpChanged,
        has_friend(a.book, p.sender_id),
        friend_of(a.book, p.sender_id)->0.last_seen == Some(now.unix),
    ensures
        keeps_waiting(a, b, p.sender_id),
        keeps_seen(a, b, p.sender_id),
{
    match payload_plain(a.net.me, p) {
        Ok(plain) => match ip_changed_of(plain) {
            Ok((probe_id, ips)) => {
                let st = ip_port_text(src.ip(), src.port());
                lemma_moved(a, p.sender_id, src, ips, now);
                let m = moved(a, p.sender_id, src, ips, now);
                assert(confirms(m, b, p.sender_id, probe_id, src));
                assert(continues(m.out, b.out));
                lemma_continues_trans(a.out, m.out, b.out);
                lemma_book_of(a.book, p.sender_id, st, now.unix, ips, p.sender_id);
                let seen = book_seen(a.book, p.sender_id, Some(st), now.unix);
                lemma_merge_keeps_seen(seen, p.sender_id, ips, p.sender_id);
            },
            Err(_) => {},
        },
        Err(_) => {},
    }
}

proof fn lemma_gossip_handled(
    a: World,
    b: World,
    p: PacketView,
    src: AddrView,
    now: Moment,
    r: Result<(), NetError>,
)
    requires
        handles(a, b, p, src, now, r),
        p.ptype == PktType::Gossip,
    ensures
        keeps_waiting(a, b, p.sender_id),
        b.book == a.book,
{
    match payload_plain(a.net.me, p) {
        Ok(plain) => match gossip_of(plain) {
            Ok((victims, ips)) => {
                let who = p.sender_id;
                let g = gossip_taken(a, who, victims, ips, now.tick);
                let present = gossip_present(a, who, victims, now.unix);
                let steps = choose|steps: Seq<World>| #[trigger]
                    delivers_all_by(g, b, present, steps, now.tick);
                lemma_gossip_stored(a, who, victims, ips, now.tick, who);
                lemma_present_others(a, who, victims, now.unix);
                lemma_all_delivered(
                    g,
                    present,
                    steps,
                    now.tick,
                    0,
                    present.len() as int,
                    who,
                    who,
                    ips,
                );
                assert(continues(a.out, g.out));
                lemma_continues_trans(a.out, g.out, b.out);
            },
            Err(_) => {},
        },
        Err(_) => {},
    }
}

proof fn lemma_present_others(w: World, source: Seq<u8>, victims: Seq<Seq<u8>>, unix: u64)
    ensures
        forall|i: int|
            0 <= i < gossip_present(w, source, victims, unix).len() ==> #[trigger] gossip_present(
                w,
                source,
                victims,
                unix,
            )[i] != source,
    decreases victims.len(),
{
    if victims.len() > 0 {
        let t = victims.drop_last();
        lemma_present_others(w, source, t, unix);
        let f = gossip_present(w, source, t, unix);
        let r = gossip_present(w, source, victims, unix);
        assert forall|i: int| 0 <= i < r.len() implies #[trigger] r[i] != source by {
            if i < f.len() {
                assert(r[i] == f[i]);
            }
        }
    }
}

proof fn lemma_push_handled(
    a: World,
    b: World,
    p: PacketView,
    src: AddrView,
    now: Moment,
    r: Result<(), NetError>,
)
    requires
        handles(a, b, p, src, now, r),
        p.ptype == PktType::PushIp,
    ensures
        keeps_waiting(a, b, p.sender_id),
        keeps_seen(a, b, p.sender_id),
{
    match payload_plain(a.net.me, p) {
        Ok(plain) => match push_ip_of(plain) {
            Ok((source, ips)) => {
                let book = book_merged(a.book, source, ips);
                let pre = World { book, unsaved: true, ..a };
                lemma_resent(pre, pre.net.failed_sends, source, now.tick);
                lemma_resent_grows(pre, pre.net.failed_sends, source, now.tick);
                lemma_merge_keeps_seen(a.book, source, ips, p.sender_id);
                let m = retried_failed(pre, source, now.tick);
                assert(continues(a.out, m.out));
                assert(continues(a.out, told(a, source, ips, now.tick).out));
            },
            Err(_) => {},
        },
        Err(_) => {},
    }
}

/// What the handling of any packet but an address query leaves alone.
proof fn lemma_handled_keeps(
    a: World,
    b: World,
    p: PacketView,
    src: AddrView,
    now: Moment,
    r: Result<(), NetError>,
)
    requires
        handles(a, b, p, src, now, r),
        p.ptype != PktType::AddrQuery,
        has_friend(a.book, p.sender_id),
        friend_of(a.book, p.sender_id)->0.last_seen == Some(now.unix),
    ensures
        keeps_waiting(a, b, p.sender_id),
        keeps_seen(a, b, p.sender_id),
{
    match p.ptype {
        PktType::Msg => lemma_message_handled(a, b, p, src, now, r),
        PktType::AddrAnswer => lemma_answer_handled(a, b, p, src, now, r),
        PktType::IpChanged => lemma_announcement_handled(a, b, p, src, now, r),
        PktType::Gossip => lemma_gossip_handled(a, b, p, src, now, r),
        PktType::PushIp => lemma_push_handled(a, b, p, src, now, r),
        _ => {},
    }
}

/// A packet of a friend shows that the friend was here now, whatever becomes
/// of the packet. Once it has been handled, everything that others entrusted
/// to us for that friend and that is due goes out to all of its addresses.
pub proof fn law_contact_is_used(
    w: World,
    w2: World,
    bytes: Seq<u8>,
    src: AddrView,
    now: Moment,
    r: Result<(), NetError>,
    p: PacketView,
)
    requires
        packet_step(w, w2, bytes, src, now, r),
        accepted(w.net.me, w.book, bytes) == Ok::<PacketView, NetError>(p),
    ensures
        friend_of(w2.book, p.sender_id) matches Some(f) && f.last_seen == Some(now.unix),
        r is Ok ==> match lookup(w.net.pending_pushes, p.sender_id) {
            Some(list) => forall|i: int|
                0 <= i < list.len() && is_due(#[trigger] list[i], p.sender_id, now.tick)
                    ==> is_passed_on(
                    World { book: w2.book, ..w },
                    w2.out,
                    p.sender_id,
                    list[i],
                ),
            None => true,
        },
{
    let who = p.sender_id;
    let ip = ip_port_text(src.ip(), src.port());
    let a = noted_seen(w, who, ip, now);
    lemma_noted(w, who, ip, now, (who, 0));
    lemma_book_of(w.book, who, ip, now.unix, Seq::empty(), who);
    let b = lemma_handled(w, w2, bytes, src, now, r, p);
    let other = who.push(0);
    assert(other.len() != who.len());
    if p.ptype != PktType::AddrQuery {
        lemma_handled_keeps(a, b, p, src, now, r);
    } else if r is Ok {
        let inner = answer_to(a.book, who, payload_plain(a.net.me, p)->Ok_0);
        let x = choose|x: World| #[trigger]
            sends_answer(a, x, who, inner, src) && delivers_pushes(x, b, who, now.tick);
        lemma_delivery_frame(x, b, who, now.tick);
        law_pushes_are_delivered(x, b, who, now.tick, other);
        assert(continues(a.out, x.out));
        lemma_continues_trans(a.out, x.out, b.out);
    }
    if r is Ok {
        let c = choose|c: World| #[trigger]
            delivers_pushes(b, c, who, now.tick) && w2 == announce_delivered(c, who, src);
        lemma_delivery_frame(b, c, who, now.tick);
        law_pushes_are_delivered(b, c, who, now.tick, other);
        assert(continues(c.out, w2.out));
        lemma_continues_trans(b.out, c.out, w2.out);
        match lookup(w.net.pending_pushes, who) {
            Some(list) => {
                let from = World { book: w2.book, ..w };
                assert forall|i: int|
                    0 <= i < list.len() && is_due(#[trigger] list[i], who, now.tick) implies
                    is_passed_on(from, w2.out, who, list[i]) by {
                    if p.ptype == PktType::AddrQuery {
                        let inner = answer_to(a.book, who, payload_plain(a.net.me, p)->Ok_0);
                        let x = choose|x: World| #[trigger]
                            sends_answer(a, x, who, inner, src) && delivers_pushes(
                                x,
                                b,
                                who,
                                now.tick,
                            );
                        assert(is_passed_on(x, b.out, who, list[i]));
                        lemma_passed_later(from, x, b.out, w2.out, who, list[i]);
                    } else {
                        assert(is_passed_on(b, c.out, who, list[i]));
                        lemma_passed_later(from, b, c.out, w2.out, who, list[i]);
                    }
                }
            },
            None => {},
        }
    }
}

/// Traffic of a friend that was last seen at another time is shown, and the
/// messages to that friend that had failed go out, to the address it came from
/// among others; then they no longer count as failed.
pub proof fn law_contact_retries(
    w: World,
    who: Seq<u8>,
    ip: Seq<char>,
    now: Moment,
    f: FriendView,
    seq: u32,
)
    requires
        friend_of(w.book, who) == Some(f),
        f.last_seen != Some(now.unix),
        distinct_keys(w.net.failed_sends),
    ensures
        ({
            let r = noted_seen(w, who, ip, now);
            let from = World { book: r.book, ..w };
            &&& r.unsaved
            &&& friend_of(r.book, who) == Some(
                FriendView { ips: seen_ips(f.ips, Some(ip)), last_seen: Some(now.unix), ..f },
            )
            &&& appears(
                r.out,
                w.out.len() as int,
                OutView::Event(EventView::FriendSeen { peer: who }),
            )
            &&& has_address(from, who) ==> match lookup(w.net.failed_sends, (who, seq)) {
                Some(bytes) => is_back(from, r, who, seq, bytes, now.tick),
                None => lookup(r.net.failed_sends, (who, seq)) is None,
            }
            &&& !has_address(from, who) ==> r.net == w.net
        }),
{
    let r = noted_seen(w, who, ip, now);
    let book = book_seen(w.book, who, Some(ip), now.unix);
    lemma_book_of(w.book, who, ip, now.unix, Seq::empty(), who);
    assert(book != w.book);
    let e = emitted(World { book, unsaved: true, ..w }, EventView::FriendSeen { peer: who });
    let other = (who.push(0), seq);
    assert(other.0.len() != who.len());
    law_failed_go_out(e, who, now.tick, seq, other);
    lemma_resent(e, e.net.failed_sends, who, now.tick);
    lemma_resent_grows(e, e.net.failed_sends, who, now.tick);
    let from = World { book: r.book, ..w };
    lemma_has_address(from, who);
    lemma_has_address(e, who);
    assert(r.book == book);
    let k = e.out.len() - 1;
    assert(e.out[k] == OutView::Event(EventView::FriendSeen { peer: who }));
    assert(r.out[k] == e.out[k]);
    if has_address(from, who) {
        assert(has_address(e, who));
        match lookup(w.net.failed_sends, (who, seq)) {
            Some(bytes) => {
                lemma_reaches_later(from, e, r.out, r.out, who, bytes);
            },
            None => {},
        }
    } else {
        assert forall|a: AddrView| !recorded(e.book, who, a) by {
            if recorded(e.book, who, a) {
                assert(has_address(e, who));
            }
        }
    }
}

/// A packet that neither announces nor hands on addresses records just the
/// address it came from: it stands first, if it is reachable.
pub proof fn law_source_is_recorded(
    w: World,
    w2: World,
    bytes: Seq<u8>,
    src: AddrView,
    now: Moment,
    r: Result<(), NetError>,
    p: PacketView,
    f: FriendView,
)
    requires
        packet_step(w, w2, bytes, src, now, r),
        accepted(w.net.me, w.book, bytes) == Ok::<PacketView, NetError>(p),
        p.ptype != PktType::IpChanged,
        p.ptype != PktType::AddrAnswer,
        p.ptype != PktType::PushIp,
        friend_of(w.book, p.sender_id) == Some(f),
    ensures
        ({
            let st = ip_port_text(src.ip(), src.port());
            &&& friend_of(w2.book, p.sender_id) matches Some(f2)
            &&& f2 == (FriendView { ips: f2.ips, last_seen: Some(now.unix), ..f })
            &&& reachable_text(st) ==> f2.ips.len() > 0 && f2.ips[0] == st
            &&& f2.ips.len() <= 8
            &&& forall|x: Seq<char>|
                f.ips.len() < 8 && #[trigger] f.ips.contains(x) ==> f2.ips.contains(x)
            &&& forall|i: int|
                0 <= i < f2.ips.len() ==> f.ips.contains(#[trigger] f2.ips[i]) || (f2.ips[i] == st
                    && reachable_text(st))
        }),
{
    let who = p.sender_id;
    let ip = ip_port_text(src.ip(), src.port());
    let a = noted_seen(w, who, ip, now);
    lemma_noted(w, who, ip, now, (who, 0));
    lemma_book_of(w.book, who, ip, now.unix, Seq::empty(), who);
    let b = lemma_packet(w, w2, bytes, src, now, r, p);
    lemma_seen_once(f.ips, ip);
    assert(b.book == a.book) by {
        match p.ptype {
            PktType::Msg => lemma_message_handled(a, b, p, src, now, r),
            PktType::Gossip => lemma_gossip_handled(a, b, p, src, now, r),
            PktType::AddrQuery => {
                if r is Ok {
                    let inner = answer_to(a.book, who, payload_plain(a.net.me, p)->Ok_0);
                    let x = choose|x: World| #[trigger]
                        sends_answer(a, x, who, inner, src) && delivers_pushes(
                            x,
                            b,
                            who,
                            now.tick,
                        );
                    lemma_delivery_frame(x, b, who, now.tick);
                }
            },
            _ => {},
        }
    }
}

// ---------- queries of others ----------

/// A friend's query is answered to where it came from, under its number, with
/// all that is recorded for the one it seeks; with nothing if that is no friend.
pub proof fn law_query_is_answered(
    w: World,
    w2: World,
    bytes: Seq<u8>,
    src: AddrView,
    now: Moment,
    r: Result<(), NetError>,
    peer: Me,
    flags: u8,
    seq: u32,
    target: Seq<u8>,
    nonce: Seq<u8>,
    fail_seq: u32,
    ips: Seq<Seq<char>>,
)
    requires
        packet_step(w, w2, bytes, src, now, r),
        taken_for(
            w.net.me,
            w.book,
            bytes,
            peer,
            PktType::AddrQuery,
            flags,
            seq,
            addr_query_bytes(target, nonce, fail_seq),
        ),
        target.len() == 32,
        nonce.len() == 16,
        id::hex_text(target) != id::hex_text(peer.ed_pub),
        friend_of(w.book, target) matches Some(f) ==> f.ips == ips,
        friend_of(w.book, target) is None ==> ips.len() == 0,
        primitives::gcm_fits(addr_answer_bytes(target, nonce, ips).len()),
    ensures
        r is Ok,
        replies(
            w,
            w2.out,
            PktType::AddrAnswer,
            0,
            0,
            peer.ed_pub,
            addr_answer_bytes(target, nonce, ips),
            src,
        ),
{
    let p = accepted(w.net.me, w.book, bytes)->Ok_0;
    let who = p.sender_id;
    let ip = ip_port_text(src.ip(), src.port());
    let a = noted_seen(w, who, ip, now);
    lemma_noted(w, who, ip, now, (who, 0));
    lemma_book_of(w.book, who, ip, now.unix, Seq::empty(), target);
    lemma_book_of(w.book, who, ip, now.unix, Seq::empty(), who);
    let b = lemma_packet(w, w2, bytes, src, now, r, p);
    let plain = addr_query_bytes(target, nonce, fail_seq);
    assert(plain.len() == 53);
    assert(plain.subrange(1, 33) =~= target);
    assert(plain.subrange(33, 49) =~= nonce);
    let inner = addr_answer_bytes(target, nonce, ips);
    assert(answer_ips(a.book, who, target) =~= ips);
    assert(answer_to(a.book, who, plain) == inner);
    let x = choose|x: World| #[trigger]
        sends_answer(a, x, who, inner, src) && delivers_pushes(x, b, who, now.tick);
    let c = choose|c: Seq<u8>|
        is_sealed_packet(a.net.me, PktType::AddrAnswer, 0, 0, who, inner, c) && x
            == #[trigger] sent_to(a, src, c);
    lemma_delivery_frame(x, b, who, now.tick);
    let k = x.out.len() - 1;
    let o = OutView::Send { to: wire_form(w.net.use_v6, src), bytes: c };
    assert(x.out[k] == o);
    assert(b.out[k] == o);
    assert(w2.out[k] == o);
    assert(is_reply(w2.out[k], w, PktType::AddrAnswer, 0, 0, who, inner, src));
}

/// An answer to a query that is not open, or about someone else than was
/// sought, is not used: nothing is reported, no query changes, and no friend
/// list but for the sign of life.
pub proof fn law_unasked_answer_is_ignored(
    w: World,
    w2: World,
    bytes: Seq<u8>,
    src: AddrView,
    now: Moment,
    r: Result<(), NetError>,
    peer: Me,
    flags: u8,
    seq: u32,
    inner: Seq<u8>,
    ans: AnswerView,
)
    requires
        packet_step(w, w2, bytes, src, now, r),
        taken_for(w.net.me, w.book, bytes, peer, PktType::AddrAnswer, flags, seq, inner),
        addr_answer_of(inner) == Ok::<AnswerView, ProtoError>(ans),
        lookup(w.net.addr_queries, ans.nonce_q) matches Some(q) ==> q.target != ans.target_id,
    ensures
        r is Ok,
        quietly_extends(w.out, w2.out),
        w2.net.addr_queries == w.net.addr_queries,
        w2.book == noted_seen(
            w,
            peer.ed_pub,
            ip_port_text(src.ip(), src.port()),
            now,
        ).book,
{
    let p = accepted(w.net.me, w.book, bytes)->Ok_0;
    let who = p.sender_id;
    let ip = ip_port_text(src.ip(), src.port());
    lemma_noted(w, who, ip, now, (who, 0));
    let b = lemma_packet(w, w2, bytes, src, now, r, p);
    lemma_extends_trans(w.out, b.out, w2.out);
}

// ---------- what is accepted ----------

/// A datagram is accepted exactly if it is a packet for us, of a friend, whose
/// signature by that friend covers all that stands before it.
pub proof fn law_accepted(me: Me, book: Seq<FriendView>, bytes: Seq<u8>)
    ensures
        match accepted(me, book, bytes) {
            Ok(p) => {
                &&& p.recipient_id == me.ed_pub
                &&& has_friend(book, p.sender_id)
                &&& exists|sig: Seq<u8>| #[trigger]
                    primitives::ed25519_verifies(p.sender_id, unsigned_bytes(p), sig) && bytes
                        == unsigned_bytes(p) + sig
            },
            Err(_) => match decoded(bytes) {
                Ok(d) => {
                    ||| d.packet.recipient_id != me.ed_pub
                    ||| !has_friend(book, d.packet.sender_id)
                    ||| !primitives::ed25519_is_key(d.packet.sender_id)
                    ||| !primitives::ed25519_verifies(
                        d.packet.sender_id,
                        unsigned_bytes(d.packet),
                        d.signature,
                    )
                },
                Err(_) => true,
            },
        },
{
    law_signature_covers_all(bytes);
}

// ---------- acknowledgements ----------

/// An acknowledgement changes nothing but what it acknowledges: other messages
/// wait on, and one of a number that nothing waits under is not reported.
pub proof fn law_acknowledges_only_its_own(
    w: World,
    w2: World,
    bytes: Seq<u8>,
    src: AddrView,
    now: Moment,
    r: Result<(), NetError>,
    peer: Me,
    flags: u8,
    number: u32,
    seq: u32,
    other: (Seq<u8>, u32),
)
    requires
        packet_step(w, w2, bytes, src, now, r),
        taken_for(w.net.me, w.book, bytes, peer, PktType::MsgAck, flags, number, be32(seq)),
        other.0 != peer.ed_pub,
    ensures
        r is Ok,
        lookup(w2.net.retx, other) == lookup(w.net.retx, other),
        lookup(w2.net.failed_sends, other) == lookup(w.net.failed_sends, other),
        lookup(w2.net.retx, (peer.ed_pub, seq)) is None,
        lookup(w.net.retx, (peer.ed_pub, seq)) is None && lookup(
            w.net.failed_sends,
            (peer.ed_pub, seq),
        ) is None && lookup(w.net.chunk_seqs, seq) is None ==> quietly_extends(w.out, w2.out)
            && w2.net.attach_sends == w.net.attach_sends && w2.net.chunk_seqs
            == w.net.chunk_seqs,
{
    let p = accepted(w.net.me, w.book, bytes)->Ok_0;
    let who = p.sender_id;
    let ip = ip_port_text(src.ip(), src.port());
    let a = noted_seen(w, who, ip, now);
    lemma_noted(w, who, ip, now, other);
    let b = lemma_packet(w, w2, bytes, src, now, r, p);
    law_ack_round_trip(seq);
    assert(b == acked(a, who, seq));
    let k = (who, seq);
    law_table(a.net.retx, k, arbitrary(), other);
    law_table(a.net.failed_sends, k, arbitrary(), other);
    lemma_noted_absent(w, who, ip, now, seq);
    if lookup(w.net.retx, k) is None && lookup(w.net.failed_sends, k) is None && lookup(
        w.net.chunk_seqs,
        seq,
    ) is None {
        lemma_extends_trans(w.out, b.out, w2.out);
    }
}

/// Traffic makes nothing wait that neither waited nor had failed.
proof fn lemma_noted_absent(w: World, who: Seq<u8>, ip: Seq<char>, now: Moment, seq: u32)
    ensures
        lookup(w.net.retx, (who, seq)) is None && lookup(w.net.failed_sends, (who, seq)) is None
            ==> lookup(noted_seen(w, who, ip, now).net.retx, (who, seq)) is None,
{
    let book = book_seen(w.book, who, Some(ip), now.unix);
    let e = emitted(World { book, unsaved: true, ..w }, EventView::FriendSeen { peer: who });
    lemma_resent_absent(e, e.net.failed_sends, who, now.tick, seq);
}

proof fn lemma_resent_absent(
    w: World,
    failed: Seq<((Seq<u8>, u32), Seq<u8>)>,
    who: Seq<u8>,
    now: u64,
    seq: u32,
)
    ensures
        lookup(w.net.retx, (who, seq)) is None && lookup(failed, (who, seq)) is None ==> lookup(
            resent(w, failed, who, now).net.retx,
            (who, seq),
        ) is None,
    decreases failed.len(),
{
    if failed.len() > 0 {
        let t = failed.drop_last();
        lemma_resent_absent(w, t, who, now, seq);
        let f = resent(w, t, who, now);
        let (key, bytes) = failed.last();
        lemma_lookup_push(t, failed.last(), (who, seq));
        assert(t.push(failed.last()) =~= failed);
        law_dispatched(f, who, key.1, bytes, now, (who, seq));
    }
}

// ---------- messages that are not understood ----------

/// A new message of an unknown kind, or one that does not say how long it is,
/// is refused: it is neither acknowledged nor handed on. A broken chunk of an
/// attachment is refused too, but acknowledged, so that it is not repeated.
/// Either way its number is remembered.
pub proof fn law_unknown_message(
    w: World,
    w2: World,
    bytes: Seq<u8>,
    src: AddrView,
    now: Moment,
    r: Result<(), NetError>,
    peer: Me,
    flags: u8,
    seq: u32,
    plain: Seq<u8>,
)
    requires
        packet_step(w, w2, bytes, src, now, r),
        taken_for(w.net.me, w.book, bytes, peer, PktType::Msg, flags, seq, plain),
        !session_of(w.net.sessions, peer.ed_pub).contains(seq),
    ensures
        ({
            let noted = noted_seen(w, peer.ed_pub, ip_port_text(src.ip(), src.port()), now);
            match msg_of(plain) {
                Err(e) => r == Err::<(), NetError>(NetError::Proto(e)) && w2.out == noted.out,
                Ok((kind, _, _)) => {
                    &&& kind != 1 && kind != 2 ==> r == Err::<(), NetError>(
                        NetError::UnknownMessage,
                    ) && w2.out == noted.out
                    &&& kind == 2 && chunk_of(plain) is Err ==> r is Err && acknowledges(
                        w,
                        w2,
                        peer.ed_pub,
                        seq,
                        src,
                    ) && w2.net.attach_recvs == w.net.attach_recvs
                },
            }
        }),
        session_of(w2.net.sessions, peer.ed_pub).contains(seq),
{
    let p = accepted(w.net.me, w.book, bytes)->Ok_0;
    let who = p.sender_id;
    let ip = ip_port_text(src.ip(), src.port());
    let a = noted_seen(w, who, ip, now);
    lemma_noted(w, who, ip, now, (who, 0));
    let b = lemma_packet(w, w2, bytes, src, now, r, p);
    let m = number_marked(a, who, seq);
    let s = session_of(w.net.sessions, who);
    lemma_marked(s, seq);
    lemma_session_put(a.net.sessions, who, marked(s, seq));
    assert(session_of(a.net.sessions, who) == s);
    assert(plain_step(m, b, p, plain, src, now.tick, r));
    lemma_not_understood(m, b, p, plain, src, now.tick, r);
    if msg_of(plain) is Ok && (msg_of(plain)->Ok_0).0 == 2 && chunk_of(plain) is Err {
        let i = b.out.len() - 1;
        assert(is_ack_to(b.out[i], m, who, seq, src));
        assert(is_ack_to(w2.out[i], w, who, seq, src));
    }
}

proof fn lemma_not_understood(
    m: World,
    b: World,
    p: PacketView,
    plain: Seq<u8>,
    src: AddrView,
    now: u64,
    r: Result<(), NetError>,
)
    requires
        plain_step(m, b, p, plain, src, now, r),
    ensures
        match msg_of(plain) {
            Err(e) => r == Err::<(), NetError>(NetError::Proto(e)) && b == m,
            Ok((kind, _, _)) => {
                &&& kind != 1 && kind != 2 ==> r == Err::<(), NetError>(NetError::UnknownMessage)
                    && b == m
                &&& kind == 2 && chunk_of(plain) is Err ==> r is Err && b.out.len() == m.out.len()
                    + 1 && is_ack_to(b.out.last(), m, p.sender_id, p.seq, src) && b.net == m.net
            },
        },
{
}

/// A chunk of an attachment of more than 256 MiB is not kept.
pub proof fn law_too_large(w: World, peer: Seq<u8>, ts: u64, c: ChunkView, now: u64)
    requires
        c.total_size > 0x1000_0000,
    ensures
        assembled(w, peer, ts, c, now) == w,
{
}

} // verus!
