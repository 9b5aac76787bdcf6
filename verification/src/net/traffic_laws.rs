//! What a packet from a friend does: messages that had failed go out, answers
//! to queries are counted, announced addresses are taken in, and transfers
//! end with their last acknowledgement.

use vstd::prelude::*;

use crate::bytes::be64;
use crate::crypto::id;
use crate::net::announce::{confirms, friend_moved_text, moved};
use crate::net::driver::{
    accepted, follows_up, handles, lemma_noted_seen, lemma_resent, packet_step, taken_for,
};
use crate::net::event::{EventView, Moment, OutView};
use crate::net::ip::{ip_port_text, AddrView};
use crate::net::laws::{lemma_extends_trans, lemma_follow_up_out, lemma_noted_out, quietly_extends};
use crate::net::lookup::{answered, unanswered};
use crate::net::node::{
    dispatched, emitted, failed_of_others, fresh_pending, is_sealed_packet, noted_seen, peer_addrs,
    resent, retried_failed, sent_to, Me, NetError, NetState, QueryView, World,
};
use crate::net::packet::{PacketView, PktType, FLAG_ACK};
use crate::net::route_laws::{
    appears, continues, law_peer_addrs, law_sent_to_friend, lemma_continues_trans,
    lemma_reaches_later, reaches, recorded, wire_form,
};
use crate::proto::ProtoError;
use crate::proto::addressing::{addr_answer_of, ip_changed_of, AnswerView};
use crate::store::friend_laws::{is_new, law_merge_keeps, law_merged_ips, law_seen_order};
use crate::store::friends::{
    book_merged, book_seen, find_friend, find_text, friend_of, has_friend, is_v6_text,
    lemma_find_friend, lemma_find_text, merged_ips, reachable_text, seen_ips, FriendView,
};
use crate::table::{
    distinct_keys, has_key, key_index, law_table, lemma_key_index, lemma_lookup_push, lookup,
    without,
};

verus! {

// ---------- failed messages ----------

/// A packet as it waits for the first time.
pub open spec fn waits_afresh(
    n: NetState,
    who: Seq<u8>,
    seq: u32,
    bytes: Seq<u8>,
    now: u64,
) -> bool {
    &&& lookup(n.retx, (who, seq)) matches Some(p)
    &&& p.bytes == bytes
    &&& p.recipient == who
    &&& p.seq == seq
    &&& p.attempts == 0
    &&& p.next_retry as int == if now + 2000 <= u64::MAX {
        now + 2000
    } else {
        u64::MAX as int
    }
}

/// A packet that is handed to the network reaches its recipient and waits for
/// the acknowledgement; nothing else changes.
pub proof fn law_dispatched(
    w: World,
    who: Seq<u8>,
    seq: u32,
    bytes: Seq<u8>,
    now: u64,
    other: (Seq<u8>, u32),
)
    ensures
        ({
            let r = dispatched(w, who, seq, bytes, now);
            &&& reaches(w, r.out, who, bytes)
            &&& continues(w.out, r.out)
            &&& waits_afresh(r.net, who, seq, bytes, now)
            &&& other != (who, seq) ==> lookup(r.net.retx, other) == lookup(w.net.retx, other)
            &&& r == (World { out: r.out, net: NetState { retx: r.net.retx, ..w.net }, ..w })
            &&& forall|k: int| w.out.len() <= k < r.out.len() ==> #[trigger] r.out[k] is Send
        }),
{
    law_sent_to_friend(w, who, bytes);
    let k = (who, seq);
    let some = (who.push(0), seq);
    assert(some.0.len() != k.0.len());
    law_table(w.net.retx, k, fresh_pending(bytes, who, seq, now), some);
    if other != k {
        law_table(w.net.retx, k, fresh_pending(bytes, who, seq, now), other);
    }
}

pub proof fn lemma_resent_all(
    w: World,
    failed: Seq<((Seq<u8>, u32), Seq<u8>)>,
    who: Seq<u8>,
    now: u64,
    i: int,
)
    requires
        distinct_keys(failed),
        0 <= i < failed.len(),
        failed[i].0.0 == who,
    ensures
        ({
            let r = resent(w, failed, who, now);
            &&& reaches(w, r.out, who, failed[i].1)
            &&& waits_afresh(r.net, who, failed[i].0.1, failed[i].1, now)
        }),
    decreases failed.len(),
{
    let t = failed.drop_last();
    let f = resent(w, t, who, now);
    let r = resent(w, failed, who, now);
    let (key, bytes) = failed.last();
    lemma_resent(w, t, who, now);
    lemma_resent_grows(w, t, who, now);
    assert forall|a: int, b: int| 0 <= a < b < t.len() implies (#[trigger] t[a]).0 != (
    #[trigger] t[b]).0 by {
        assert(failed[a] == t[a] && failed[b] == t[b]);
    }
    law_dispatched(f, who, key.1, bytes, now, failed[i].0);
    if i < t.len() {
        assert(t[i] == failed[i]);
        lemma_resent_all(w, t, who, now, i);
        assert(failed[i].0 != failed[failed.len() - 1].0);
        lemma_reaches_later(w, w, f.out, r.out, who, t[i].1);
    } else {
        lemma_reaches_later(w, f, r.out, r.out, who, bytes);
    }
}

pub proof fn lemma_resent_grows(
    w: World,
    failed: Seq<((Seq<u8>, u32), Seq<u8>)>,
    who: Seq<u8>,
    now: u64,
)
    ensures
        continues(w.out, resent(w, failed, who, now).out),
    decreases failed.len(),
{
    if failed.len() > 0 {
        let t = failed.drop_last();
        lemma_resent_grows(w, t, who, now);
        let f = resent(w, t, who, now);
        let r = resent(w, failed, who, now);
        assert(continues(f.out, r.out));
        lemma_continues_trans(w.out, f.out, r.out);
    }
}

/// Packets to others are left alone.
pub proof fn lemma_resent_others(
    w: World,
    failed: Seq<((Seq<u8>, u32), Seq<u8>)>,
    who: Seq<u8>,
    now: u64,
    other: (Seq<u8>, u32),
)
    requires
        other.0 != who,
    ensures
        lookup(resent(w, failed, who, now).net.retx, other) == lookup(w.net.retx, other),
        lookup(failed_of_others(failed, who), other) == lookup(failed, other),
    decreases failed.len(),
{
    if failed.len() > 0 {
        let t = failed.drop_last();
        lemma_resent_others(w, t, who, now, other);
        let f = resent(w, t, who, now);
        let (key, bytes) = failed.last();
        law_dispatched(f, who, key.1, bytes, now, other);
        let kept = failed_of_others(t, who);
        lemma_lookup_push(t, failed.last(), other);
        lemma_lookup_push(kept, failed.last(), other);
        assert(t.push(failed.last()) =~= failed);
    }
}

/// Once someone has an address, every message to it that had failed goes out
/// to all of its addresses and waits for its acknowledgement as if new; while
/// there is none, the messages stay failed. Messages to others are left alone.
pub proof fn law_failed_go_out(w: World, who: Seq<u8>, now: u64, seq: u32, other: (Seq<u8>, u32))
    requires
        distinct_keys(w.net.failed_sends),
        other.0 != who,
    ensures
        ({
            let r = retried_failed(w, who, now);
            &&& (exists|a: AddrView| recorded(w.book, who, a)) ==> (match lookup(
                w.net.failed_sends,
                (who, seq),
            ) {
                Some(bytes) => reaches(w, r.out, who, bytes) && waits_afresh(
                    r.net,
                    who,
                    seq,
                    bytes,
                    now,
                ),
                None => true,
            }) && lookup(r.net.failed_sends, (who, seq)) is None
            &&& (forall|a: AddrView| !recorded(w.book, who, a)) ==> r == w
            &&& lookup(r.net.retx, other) == lookup(w.net.retx, other)
            &&& lookup(r.net.failed_sends, other) == lookup(w.net.failed_sends, other)
        }),
{
    let r = retried_failed(w, who, now);
    let failed = w.net.failed_sends;
    let k = (who, seq);
    law_peer_addrs(w.book, who);
    let addrs = peer_addrs(w.book, who);
    if exists|a: AddrView| recorded(w.book, who, a) {
        let a = choose|a: AddrView| recorded(w.book, who, a);
        assert(addrs.contains(a));
        lemma_key_index(failed, k);
        if has_key(failed, k) {
            lemma_resent_all(w, failed, who, now, key_index(failed, k));
        }
        lemma_others_none(failed, who, seq);
    }
    if addrs.len() > 0 {
        assert(addrs.contains(addrs[0]));
    }
    lemma_resent_others(w, failed, who, now, other);
}

proof fn lemma_others_none(failed: Seq<((Seq<u8>, u32), Seq<u8>)>, who: Seq<u8>, seq: u32)
    ensures
        lookup(failed_of_others(failed, who), (who, seq)) is None,
    decreases failed.len(),
{
    let r = failed_of_others(failed, who);
    lemma_key_index(r, (who, seq));
    if failed.len() > 0 {
        let t = failed.drop_last();
        lemma_others_none(t, who, seq);
        let f = failed_of_others(t, who);
        lemma_key_index(f, (who, seq));
        if has_key(r, (who, seq)) {
            let i = key_index(r, (who, seq));
            if i < f.len() {
                assert(r[i] == f[i]);
            }
        }
    }
}

// ---------- the sender of a packet ----------

/// What traffic of a friend does before the packet is looked at.
pub proof fn lemma_noted(
    w: World,
    who: Seq<u8>,
    ip: Seq<char>,
    now: Moment,
    other: (Seq<u8>, u32),
)
    ensures
        ({
            let r = noted_seen(w, who, ip, now);
            &&& r.net == (NetState {
                retx: r.net.retx,
                failed_sends: r.net.failed_sends,
                ..w.net
            })
            &&& r.book == book_seen(w.book, who, Some(ip), now.unix)
            &&& quietly_extends(w.out, r.out)
            &&& other.0 != who ==> lookup(r.net.retx, other) == lookup(w.net.retx, other)
                && lookup(r.net.failed_sends, other) == lookup(w.net.failed_sends, other)
        }),
{
    let book = book_seen(w.book, who, Some(ip), now.unix);
    let e = emitted(World { book, unsaved: true, ..w }, EventView::FriendSeen { peer: who });
    lemma_noted_seen(w, who, ip, now);
    lemma_noted_out(w, who, ip, now, other);
    lemma_resent(e, e.net.failed_sends, who, now.tick);
    if other.0 != who {
        lemma_resent_others(e, e.net.failed_sends, who, now.tick, other);
    }
}

proof fn lemma_others_distinct(failed: Seq<((Seq<u8>, u32), Seq<u8>)>, who: Seq<u8>)
    requires
        distinct_keys(failed),
    ensures
        distinct_keys(failed_of_others(failed, who)),
        forall|i: int|
            0 <= i < failed_of_others(failed, who).len() ==> failed.contains(
                #[trigger] failed_of_others(failed, who)[i],
            ),
    decreases failed.len(),
{
    if failed.len() > 0 {
        let t = failed.drop_last();
        let f = failed_of_others(t, who);
        let r = failed_of_others(failed, who);
        assert forall|i: int, j: int| 0 <= i < j < t.len() implies (#[trigger] t[i]).0 != (
        #[trigger] t[j]).0 by {
            assert(failed[i] == t[i] && failed[j] == t[j]);
        }
        lemma_others_distinct(t, who);
        assert forall|i: int| 0 <= i < r.len() implies failed.contains(#[trigger] r[i]) by {
            if i < f.len() {
                assert(r[i] == f[i]);
                let j = t.index_of(f[i]);
                assert(failed[j] == r[i]);
            } else {
                assert(failed[failed.len() - 1] == r[i]);
            }
        }
        assert forall|i: int, j: int| 0 <= i < j < r.len() implies (#[trigger] r[i]).0 != (
        #[trigger] r[j]).0 by {
            assert(r[i] == f[i]);
            let m = t.index_of(f[i]);
            assert(failed[m] == r[i]);
            if j < f.len() {
                assert(r[j] == f[j]);
            } else {
                assert(failed[m].0 != failed[failed.len() - 1].0);
            }
        }
    }
}

/// Traffic keeps the failed messages apart.
pub proof fn lemma_noted_distinct(w: World, who: Seq<u8>, ip: Seq<char>, now: Moment)
    requires
        distinct_keys(w.net.failed_sends),
    ensures
        distinct_keys(noted_seen(w, who, ip, now).net.failed_sends),
{
    let book = book_seen(w.book, who, Some(ip), now.unix);
    let e = emitted(World { book, unsaved: true, ..w }, EventView::FriendSeen { peer: who });
    lemma_resent(e, e.net.failed_sends, who, now.tick);
    lemma_others_distinct(w.net.failed_sends, who);
}

/// The worlds around the handling of an accepted packet.
pub proof fn lemma_packet(
    w: World,
    w2: World,
    bytes: Seq<u8>,
    src: AddrView,
    now: Moment,
    r: Result<(), NetError>,
    p: PacketView,
) -> (b: World)
    requires
        packet_step(w, w2, bytes, src, now, r),
        accepted(w.net.me, w.book, bytes) == Ok::<PacketView, NetError>(p),
    ensures
        handles(
            noted_seen(w, p.sender_id, ip_port_text(src.ip(), src.port()), now),
            b,
            p,
            src,
            now,
            r,
        ),
        r is Ok ==> quietly_extends(b.out, w2.out) && w2.net == (NetState {
            pending_pushes: w2.net.pending_pushes,
            ..b.net
        }) && w2.book == b.book,
        r is Err ==> w2 == b,
{
    let a = noted_seen(w, p.sender_id, ip_port_text(src.ip(), src.port()), now);
    let b = choose|b: World| #[trigger]
        handles(a, b, p, src, now, r) && if r is Ok {
            follows_up(b, w2, p.sender_id, src, now.tick)
        } else {
            w2 == b
        };
    if r is Ok {
        lemma_follow_up_out(b, w2, p.sender_id, src, now.tick);
    }
    b
}

// ---------- answers to queries ----------

pub proof fn lemma_unanswered(asked: Seq<Seq<u8>>, done: Seq<Seq<u8>>)
    ensures
        unanswered(asked, done).len() == 0 <==> forall|i: int|
            0 <= i < asked.len() ==> done.contains(#[trigger] asked[i]),
    decreases asked.len(),
{
    if asked.len() > 0 {
        let t = asked.drop_last();
        lemma_unanswered(t, done);
        if forall|i: int| 0 <= i < t.len() ==> done.contains(#[trigger] t[i]) {
            assert forall|i: int| 0 <= i < asked.len() && done.contains(asked.last()) implies
                done.contains(#[trigger] asked[i]) by {
                if i < t.len() {
                    assert(t[i] == asked[i]);
                }
            }
            assert(asked[asked.len() - 1] == asked.last());
        } else {
            let i = choose|i: int| 0 <= i < t.len() && !done.contains(#[trigger] t[i]);
            assert(asked[i] == t[i]);
        }
    }
}

/// Whether everyone who was asked has answered, someone's answer now included.
pub open spec fn all_answered(q: QueryView, peer: Seq<u8>) -> bool {
    forall|i: int|
        0 <= i < q.asked.len() ==> #[trigger] q.asked[i] == peer || q.answered.contains(q.asked[i])
}

/// An answer without an address ends a query, as not found, exactly when
/// everyone who was asked has then answered. Otherwise the query stays open
/// under its number, unchanged but for this answer, and nothing is reported.
/// Other queries are left alone.
pub proof fn law_miss_waits_for_all(
    w: World,
    w2: World,
    bytes: Seq<u8>,
    src: AddrView,
    now: Moment,
    r: Result<(), NetError>,
    peer: Me,
    flags: u8,
    seq: u32,
    inner: Seq<u8>,
    ans: AnswerView,
    q: QueryView,
    other: Seq<u8>,
)
    requires
        packet_step(w, w2, bytes, src, now, r),
        taken_for(w.net.me, w.book, bytes, peer, PktType::AddrAnswer, flags, seq, inner),
        addr_answer_of(inner) == Ok::<AnswerView, ProtoError>(ans),
        !ans.hit || ans.ips.len() == 0,
        lookup(w.net.addr_queries, ans.nonce_q) == Some(q),
        q.target == ans.target_id,
        other != ans.nonce_q,
    ensures
        r is Ok,
        lookup(w2.net.addr_queries, other) == lookup(w.net.addr_queries, other),
        all_answered(q, peer.ed_pub) ==> lookup(w2.net.addr_queries, ans.nonce_q) is None
            && appears(
            w2.out,
            w.out.len() as int,
            OutView::Event(EventView::AddrResult { peer: q.target, found: false, count: 0 }),
        ),
        !all_answered(q, peer.ed_pub) ==> {
            &&& quietly_extends(w.out, w2.out)
            &&& lookup(w2.net.addr_queries, ans.nonce_q) matches Some(q2)
            &&& q2 == (QueryView { answered: q2.answered, ..q })
            &&& forall|x: Seq<u8>| #[trigger]
                q2.answered.contains(x) <==> q.answered.contains(x) || x == peer.ed_pub
        },
{
    let p = accepted(w.net.me, w.book, bytes)->Ok_0;
    let ip = ip_port_text(src.ip(), src.port());
    let a = noted_seen(w, p.sender_id, ip, now);
    lemma_noted(w, p.sender_id, ip, now, (p.sender_id, 0));
    let b = lemma_packet(w, w2, bytes, src, now, r, p);
    assert(b == answered(a, p.sender_id, ans, now.tick));
    let qs = w.net.addr_queries;
    let done = if q.answered.contains(p.sender_id) {
        q.answered
    } else {
        q.answered.push(p.sender_id)
    };
    assert forall|x: Seq<u8>| #[trigger]
        done.contains(x) <==> q.answered.contains(x) || x == p.sender_id by {
        if q.answered.contains(x) {
            let i = q.answered.index_of(x);
            assert(done[i] == x);
        }
        if x == p.sender_id && !q.answered.contains(x) {
            assert(done[done.len() - 1] == x);
        }
    }
    lemma_unanswered(q.asked, done);
    law_table(qs, ans.nonce_q, QueryView { answered: done, ..q }, other);
    law_table(
        without(qs, ans.nonce_q),
        ans.nonce_q,
        QueryView { answered: done, ..q },
        other,
    );
    if all_answered(q, p.sender_id) {
        let e = OutView::Event(
            EventView::AddrResult { peer: q.target, found: false, count: 0 },
        );
        assert(b.out[b.out.len() - 1] == e);
        assert(w2.out[b.out.len() - 1] == e);
    } else {
        assert(!(forall|i: int| 0 <= i < q.asked.len() ==> done.contains(#[trigger] q.asked[i])));
        lemma_extends_trans(w.out, b.out, w2.out);
    }
}

// ---------- addresses of friends ----------

/// Whether a list of at most eight addresses took in a list that was
/// announced: each reachable one of them, and each known before, is in it
/// unless it is full, where an IPv6 address yields only to IPv6 addresses; and
/// nothing else is in it.
pub open spec fn took_in(
    known: Seq<Seq<char>>,
    named: Seq<Seq<char>>,
    after: Seq<Seq<char>>,
) -> bool {
    &&& after.len() <= 8
    &&& forall|x: Seq<char>|
        (#[trigger] is_new(named, x) || known.contains(x)) && !after.contains(x) ==> after.len()
            == 8 && (is_v6_text(x) ==> forall|m: int| 0 <= m < 8 ==> is_v6_text(#[trigger] after[m]))
    &&& forall|i: int|
        0 <= i < after.len() ==> known.contains(#[trigger] after[i]) || is_new(named, after[i])
}

pub proof fn lemma_took_in(known: Seq<Seq<char>>, named: Seq<Seq<char>>)
    ensures
        took_in(known, named, merged_ips(known, named)),
{
    law_merged_ips(known, named);
    law_merge_keeps(known, named);
}

/// What is known of a friend after traffic, and after a merge; of everyone
/// else nothing changes.
pub proof fn lemma_book_of(
    fs: Seq<FriendView>,
    pubkey: Seq<u8>,
    ip: Seq<char>,
    now: u64,
    named: Seq<Seq<char>>,
    other: Seq<u8>,
)
    requires
        has_friend(fs, pubkey),
    ensures
        ({
            let f = friend_of(fs, pubkey)->0;
            &&& friend_of(book_seen(fs, pubkey, Some(ip), now), pubkey) == Some(
                FriendView { ips: seen_ips(f.ips, Some(ip)), last_seen: Some(now), ..f },
            )
            &&& friend_of(book_merged(fs, pubkey, named), pubkey) == Some(
                FriendView { ips: merged_ips(f.ips, named), ..f },
            )
            &&& id::hex_text(other) != id::hex_text(pubkey) ==> friend_of(
                book_seen(fs, pubkey, Some(ip), now),
                other,
            ) == friend_of(fs, other) && friend_of(book_merged(fs, pubkey, named), other)
                == friend_of(fs, other)
        }),
{
    let a = book_seen(fs, pubkey, Some(ip), now);
    let b = book_merged(fs, pubkey, named);
    lemma_find_friend(fs, id::hex_text(pubkey));
    lemma_find_friend(a, id::hex_text(pubkey));
    lemma_find_friend(b, id::hex_text(pubkey));
    lemma_find_friend(fs, id::hex_text(other));
    lemma_find_friend(a, id::hex_text(other));
    lemma_find_friend(b, id::hex_text(other));
    let i = find_friend(fs, id::hex_text(pubkey));
    let j = find_friend(fs, id::hex_text(other));
    assert(a[i].pubkey == fs[i].pubkey && b[i].pubkey == fs[i].pubkey);
    assert forall|k: int| 0 <= k < fs.len() implies (#[trigger] fs[k]).pubkey == a[k].pubkey
        && fs[k].pubkey == b[k].pubkey by {}
    let ai = find_friend(a, id::hex_text(pubkey));
    let bi = find_friend(b, id::hex_text(pubkey));
    let aj = find_friend(a, id::hex_text(other));
    let bj = find_friend(b, id::hex_text(other));
    assert(ai == i) by {
        if ai < i {
            assert(fs[ai].pubkey == a[ai].pubkey);
        }
    }
    assert(bi == i) by {
        if bi < i {
            assert(fs[bi].pubkey == b[bi].pubkey);
        }
    }
    assert(aj == j) by {
        if aj < j {
            assert(fs[aj].pubkey == a[aj].pubkey);
        } else if j < aj {
            assert(fs[j].pubkey == a[j].pubkey);
        }
    }
    assert(bj == j) by {
        if bj < j {
            assert(fs[bj].pubkey == b[bj].pubkey);
        } else if j < bj {
            assert(fs[j].pubkey == b[j].pubkey);
        }
    }
}

/// The list after traffic from one address twice over: the address is in it if
/// it is reachable, what was known is unless the list was full, and nothing
/// else is.
proof fn lemma_seen_twice(ips: Seq<Seq<char>>, ip: Seq<char>)
    ensures
        ({
            let r = seen_ips(seen_ips(ips, Some(ip)), Some(ip));
            &&& r.len() <= 8
            &&& reachable_text(ip) ==> r.contains(ip)
            &&& forall|x: Seq<char>|
                ips.len() < 8 && #[trigger] ips.contains(x) ==> r.contains(x)
            &&& forall|i: int|
                0 <= i < r.len() ==> ips.contains(#[trigger] r[i]) || (r[i] == ip
                    && reachable_text(ip))
        }),
{
    let a = seen_ips(ips, Some(ip));
    lemma_seen_once(ips, ip);
    lemma_seen_once(a, ip);
    let r = seen_ips(a, Some(ip));
    assert forall|x: Seq<char>| ips.len() < 8 && #[trigger] ips.contains(x) implies r.contains(
        x,
    ) by {
        assert(a.contains(x));
    }
    assert forall|i: int| 0 <= i < r.len() implies ips.contains(#[trigger] r[i]) || (r[i] == ip
        && reachable_text(ip)) by {
        if a.contains(r[i]) {
            let k = a.index_of(r[i]);
            assert(a[k] == r[i]);
        }
    }
}

pub proof fn lemma_seen_once(ips: Seq<Seq<char>>, ip: Seq<char>)
    ensures
        ({
            let r = seen_ips(ips, Some(ip));
            &&& r.len() <= 8
            &&& reachable_text(ip) ==> r.contains(ip) && r[0] == ip
            &&& forall|x: Seq<char>|
                (ips.len() < 8 || (ips.len() == 8 && (ips[0] == ip || !reachable_text(ip))))
                    && #[trigger] ips.contains(x) ==> r.contains(x)
            &&& forall|i: int|
                0 <= i < r.len() ==> ips.contains(#[trigger] r[i]) || (r[i] == ip
                    && reachable_text(ip))
        }),
{
    lemma_find_text(ips, ip);
    let at = find_text(ips, ip);
    law_seen_order(ips, ip, at);
    let r = seen_ips(ips, Some(ip));
    assert forall|x: Seq<char>|
        (ips.len() < 8 || (ips.len() == 8 && (ips[0] == ip || !reachable_text(ip))))
            && #[trigger] ips.contains(x) implies r.contains(x) by {
        let k = ips.index_of(x);
        if !reachable_text(ip) {
            assert(r[k] == x);
        } else if k < at {
            assert(r[k + 1] == x);
        } else if k == at {
            assert(r[0] == x);
        } else {
            assert(r[k] == x);
        }
    }
    if reachable_text(ip) {
        assert(r.contains(r[0]));
    }
}

/// Whether a datagram is an encrypted packet to a peer at an address.
pub open spec fn is_reply(
    o: OutView,
    w: World,
    ptype: PktType,
    flags: u8,
    seq: u32,
    peer: Seq<u8>,
    inner: Seq<u8>,
    src: AddrView,
) -> bool {
    o matches OutView::Send { to, bytes } && to == wire_form(w.net.use_v6, src)
        && is_sealed_packet(w.net.me, ptype, flags, seq, peer, inner, bytes)
}

/// Whether such a packet goes out.
pub open spec fn replies(
    w: World,
    out: Seq<OutView>,
    ptype: PktType,
    flags: u8,
    seq: u32,
    peer: Seq<u8>,
    inner: Seq<u8>,
    src: AddrView,
) -> bool {
    exists|k: int|
        w.out.len() <= k < out.len() && is_reply(
            #[trigger] out[k],
            w,
            ptype,
            flags,
            seq,
            peer,
            inner,
            src,
        )
}

/// Whether a list of at most eight addresses holds those that a friend
/// announced, the one that the announcement came from, and those known before:
/// each reachable one of them unless the list is full, where an announced IPv6
/// address yields only to IPv6 addresses; and nothing else.
pub open spec fn records(
    known: Seq<Seq<char>>,
    source: Seq<char>,
    named: Seq<Seq<char>>,
    after: Seq<Seq<char>>,
) -> bool {
    &&& after.len() <= 8
    &&& forall|x: Seq<char>| #[trigger]
        is_new(named, x) && !after.contains(x) ==> after.len() == 8 && (is_v6_text(x) ==> forall|
            m: int,
        |
            0 <= m < 8 ==> is_v6_text(#[trigger] after[m]))
    &&& reachable_text(source) ==> after.contains(source) || after.len() == 8
    &&& forall|x: Seq<char>|
        known.len() < 8 && #[trigger] known.contains(x) ==> after.contains(x) || after.len() == 8
    &&& forall|i: int|
        0 <= i < after.len() ==> known.contains(#[trigger] after[i]) || is_new(named, after[i])
            || (after[i] == source && reachable_text(source))
}

proof fn lemma_records(ips: Seq<Seq<char>>, st: Seq<char>, named: Seq<Seq<char>>)
    ensures
        ({
            let twice = seen_ips(seen_ips(ips, Some(st)), Some(st));
            records(
                ips,
                st,
                named,
                if named.len() == 0 {
                    twice
                } else {
                    merged_ips(twice, named)
                },
            )
        }),
{
    lemma_seen_twice(ips, st);
    let known = seen_ips(seen_ips(ips, Some(st)), Some(st));
    if named.len() > 0 {
        lemma_took_in(known, named);
        let after = merged_ips(known, named);
        if reachable_text(st) {
            assert(known.contains(st));
            let new = is_new(named, st);
        }
        assert forall|x: Seq<char>|
            ips.len() < 8 && #[trigger] ips.contains(x) implies after.contains(x) || after.len()
            == 8 by {
            assert(known.contains(x));
            let new = is_new(named, x);
        }
        assert forall|i: int| 0 <= i < after.len() implies ips.contains(#[trigger] after[i])
            || is_new(named, after[i]) || (after[i] == st && reachable_text(st)) by {
            if known.contains(after[i]) {
                let j = known.index_of(after[i]);
                assert(known[j] == after[i]);
            }
        }
    }
}

/// What an announcement does before it is confirmed.
pub proof fn lemma_moved(a: World, who: Seq<u8>, src: AddrView, ips: Seq<Seq<char>>, now: Moment)
    ensures
        ({
            let m = moved(a, who, src, ips, now);
            let seen = book_seen(
                a.book,
                who,
                Some(ip_port_text(src.ip(), src.port())),
                now.unix,
            );
            &&& continues(a.out, m.out)
            &&& m.book == if ips.len() == 0 {
                seen
            } else {
                book_merged(seen, who, ips)
            }
            &&& m.net == (NetState {
                retx: m.net.retx,
                failed_sends: m.net.failed_sends,
                ..a.net
            })
        }),
{
    let seen = book_seen(a.book, who, Some(ip_port_text(src.ip(), src.port())), now.unix);
    let book = if ips.len() == 0 {
        seen
    } else {
        book_merged(seen, who, ips)
    };
    let pre = World { book, unsaved: true, ..a };
    lemma_resent(pre, pre.net.failed_sends, who, now.tick);
    lemma_resent_grows(pre, pre.net.failed_sends, who, now.tick);
}

proof fn lemma_confirmed(
    w: World,
    m: World,
    b: World,
    out: Seq<OutView>,
    who: Seq<u8>,
    probe_id: u64,
    src: AddrView,
)
    requires
        confirms(m, b, who, probe_id, src),
        w.out.len() <= m.out.len(),
        m.net.me == w.net.me,
        m.net.use_v6 == w.net.use_v6,
        continues(b.out, out),
    ensures
        b.book == m.book,
        replies(w, out, PktType::IpChangedAck, FLAG_ACK, 0, who, be64(probe_id), src),
        appears(
            out,
            w.out.len() as int,
            OutView::Event(EventView::Status(friend_moved_text(who))),
        ),
{
    let c = choose|c: Seq<u8>|
        is_sealed_packet(
            m.net.me,
            PktType::IpChangedAck,
            FLAG_ACK,
            0,
            who,
            be64(probe_id),
            c,
        ) && b == emitted(
            #[trigger] sent_to(m, src, c),
            EventView::Status(friend_moved_text(who)),
        );
    let k = b.out.len() - 2;
    let o = OutView::Send { to: wire_form(w.net.use_v6, src), bytes: c };
    assert(b.out[k] == o);
    assert(is_reply(
        out[k],
        w,
        PktType::IpChangedAck,
        FLAG_ACK,
        0,
        who,
        be64(probe_id),
        src,
    ));
    assert(out[k + 1] == b.out[k + 1]);
}

/// An announcement of a friend is confirmed to where it came from. Its
/// addresses are then recorded for the friend, besides the address it came from
/// and those known before; the friend has been seen now. Of others nothing
/// changes.
pub proof fn law_announcement_is_taken_in(
    w: World,
    w2: World,
    bytes: Seq<u8>,
    src: AddrView,
    now: Moment,
    r: Result<(), NetError>,
    peer: Me,
    flags: u8,
    seq: u32,
    inner: Seq<u8>,
    probe_id: u64,
    ips: Seq<Seq<char>>,
    f: FriendView,
    other: Seq<u8>,
)
    requires
        packet_step(w, w2, bytes, src, now, r),
        taken_for(w.net.me, w.book, bytes, peer, PktType::IpChanged, flags, seq, inner),
        ip_changed_of(inner) == Ok::<(u64, Seq<Seq<char>>), ProtoError>((probe_id, ips)),
        friend_of(w.book, peer.ed_pub) == Some(f),
        id::hex_text(other) != id::hex_text(peer.ed_pub),
    ensures
        r is Ok,
        replies(
            w,
            w2.out,
            PktType::IpChangedAck,
            FLAG_ACK,
            0,
            peer.ed_pub,
            be64(probe_id),
            src,
        ),
        appears(
            w2.out,
            w.out.len() as int,
            OutView::Event(EventView::Status(friend_moved_text(peer.ed_pub))),
        ),
        friend_of(w2.book, other) == friend_of(w.book, other),
        ({
            &&& friend_of(w2.book, peer.ed_pub) matches Some(f2)
            &&& f2 == (FriendView { ips: f2.ips, last_seen: Some(now.unix), ..f })
            &&& records(f.ips, ip_port_text(src.ip(), src.port()), ips, f2.ips)
        }),
{
    let p = accepted(w.net.me, w.book, bytes)->Ok_0;
    let who = p.sender_id;
    let st = ip_port_text(src.ip(), src.port());
    let a = noted_seen(w, who, st, now);
    lemma_noted(w, who, st, now, (who, 0));
    let b = lemma_packet(w, w2, bytes, src, now, r, p);
    let m = moved(a, who, src, ips, now);
    assert(confirms(m, b, who, probe_id, src));
    lemma_moved(a, who, src, ips, now);
    lemma_confirmed(w, m, b, w2.out, who, probe_id, src);
    let seen = book_seen(a.book, who, Some(st), now.unix);
    lemma_book_of(w.book, who, st, now.unix, ips, other);
    lemma_book_of(a.book, who, st, now.unix, ips, other);
    lemma_book_of(seen, who, st, now.unix, ips, other);
    lemma_records(f.ips, st, ips);
}

} // verus!
