//! How a search for a friend's address goes on: it is repeated, it ends, and
//! what it finds is used.

use vstd::prelude::*;

use crate::crypto::id;
use crate::net::announce::LocalIps;
use crate::net::driver::{accepted, lemma_resent, packet_step, taken_for, ticks};
use crate::net::event::{EventView, Moment, OutView};
use crate::net::ip::{ip_port_text, AddrView};
use crate::net::lookup::{
    answered, expiry_events, learnt, numbers_resent, queries_checked, queries_kept, query_bumped,
    query_due, repeats_at, repeats_by, unanswered,
};
use crate::net::node::{
    can_seal, emitted, is_sealed_packet, noted_seen, retried_failed, Me, NetError, NetState,
    QueryView, World,
};
use crate::net::packet::PktType;
use crate::net::rounds::{are_sealed_for, peers_sent, sealable};
use crate::net::route_laws::{
    appears, continues, lemma_appears_earlier, lemma_appears_later, lemma_continues_trans,
    lemma_reaches_later, reaches,
};
use crate::net::sending_laws::{
    has_address, is_told, lemma_has_address, lemma_push_contains, lemma_round_tells, lemma_sealable,
};
use crate::net::tick_laws::{
    lemma_expiry_calm, lemma_repeat_one, lemma_repeats_frame, lemma_round_calm, lemma_turn,
};
use crate::net::traffic_laws::{
    law_dispatched, law_failed_go_out, lemma_book_of, lemma_noted, lemma_noted_distinct,
    lemma_packet, lemma_resent_grows, lemma_took_in, took_in, waits_afresh,
};
use crate::proto::ProtoError;
use crate::proto::addressing::{addr_answer_of, addr_query_bytes, AnswerView};
use crate::store::friends::{book_merged, friend_of, FriendView};
use crate::table::{
    distinct_keys, has_key, key_index, law_table, lemma_key_index, lemma_key_index_is,
    lemma_lookup_push, lookup, without,
};

verus! {

// ---------- the passing of time ----------

/// Whether a query has waited for six seconds.
pub open spec fn is_over(q: QueryView, now: u64) -> bool {
    now >= q.started + 6000 || now == u64::MAX
}

proof fn lemma_queries_kept(qs: Seq<(Seq<u8>, QueryView)>, now: u64, nonce: Seq<u8>)
    requires
        distinct_keys(qs),
    ensures
        distinct_keys(queries_kept(qs, now)),
        forall|i: int|
            0 <= i < queries_kept(qs, now).len() ==> has_key(
                qs,
                (#[trigger] queries_kept(qs, now)[i]).0,
            ),
        lookup(queries_kept(qs, now), nonce) == match lookup(qs, nonce) {
            Some(q) => if is_over(q, now) {
                None
            } else {
                Some(q)
            },
            None => None,
        },
    decreases qs.len(),
{
    if qs.len() > 0 {
        let t = qs.drop_last();
        let (lk, lq) = qs.last();
        let f = queries_kept(t, now);
        let r = queries_kept(qs, now);
        assert forall|i: int, j: int| 0 <= i < j < t.len() implies (#[trigger] t[i]).0 != (
        #[trigger] t[j]).0 by {
            assert(qs[i] == t[i] && qs[j] == t[j]);
        }
        lemma_queries_kept(t, now, nonce);
        lemma_key_index(t, lk);
        assert(!has_key(t, lk)) by {
            if has_key(t, lk) {
                let j = key_index(t, lk);
                assert(qs[j].0 != qs[qs.len() - 1].0);
            }
        }
        assert forall|i: int| 0 <= i < r.len() implies has_key(qs, (#[trigger] r[i]).0) by {
            lemma_lookup_push(t, qs.last(), r[i].0);
            assert(t.push(qs.last()) =~= qs);
            if i < f.len() {
                assert(r[i] == f[i]);
            }
        }
        assert forall|i: int, j: int| 0 <= i < j < r.len() implies (#[trigger] r[i]).0 != (
        #[trigger] r[j]).0 by {
            assert(r[i] == f[i]);
            if j < f.len() {
                assert(r[j] == f[j]);
            } else {
                assert(has_key(t, f[i].0));
            }
        }
        assert(t.push(qs.last()) =~= qs);
        lemma_lookup_push(t, qs.last(), nonce);
        lemma_lookup_push(f, qs.last(), nonce);
        lemma_key_index(f, nonce);
        if nonce == lk && has_key(f, nonce) {
            assert(has_key(t, f[key_index(f, nonce)].0));
        }
    }
}

proof fn lemma_expired_told(
    out: Seq<OutView>,
    qs: Seq<(Seq<u8>, QueryView)>,
    now: u64,
    i: int,
)
    requires
        0 <= i < qs.len(),
        is_over(qs[i].1, now),
    ensures
        appears(
            expiry_events(out, qs, now),
            out.len() as int,
            OutView::Event(
                EventView::AddrResult { peer: qs[i].1.target, found: false, count: 0 },
            ),
        ),
    decreases qs.len(),
{
    let t = qs.drop_last();
    let f = expiry_events(out, t, now);
    let r = expiry_events(out, qs, now);
    lemma_expiry_calm(out, t, now);
    let e = OutView::Event(
        EventView::AddrResult { peer: qs[i].1.target, found: false, count: 0 },
    );
    assert(continues(f, r));
    if i < t.len() {
        assert(t[i] == qs[i]);
        lemma_expired_told(out, t, now, i);
        lemma_appears_later(f, r, out.len() as int, e);
    } else {
        assert(r[r.len() - 1] == e);
    }
}

/// Later repeats leave a query alone.
proof fn lemma_repeats_tail(y: World, steps: Seq<World>, now: u64, i: int, n: int)
    requires
        steps.len() == y.net.addr_queries.len() + 1,
        steps[0] == y,
        forall|j: int| 0 <= j < y.net.addr_queries.len() ==> #[trigger] repeats_at(steps, j, now),
        0 <= i < n < steps.len(),
    ensures
        steps[n].net.addr_queries[i] == steps[i + 1].net.addr_queries[i],
        continues(steps[i + 1].out, steps[n].out),
    decreases n,
{
    if n > i + 1 {
        lemma_repeats_tail(y, steps, now, i, n - 1);
        lemma_repeats_frame(y, steps, now, n - 1);
        assert(repeats_at(steps, n - 1, now));
        lemma_repeat_one(steps[n - 1], steps[n], n - 1, now);
        lemma_continues_trans(steps[i + 1].out, steps[n - 1].out, steps[n].out);
    }
}

/// What becomes of one query when queries are repeated.
proof fn lemma_query_repeated(y: World, a: World, steps: Seq<World>, now: u64, i: int)
    requires
        repeats_by(y, a, steps, now),
        0 <= i < y.net.addr_queries.len(),
        y.net.addr_queries[i].0.len() == 16,
        y.net.addr_queries[i].1.target.len() == 32,
    ensures
        ({
            let (nonce, q) = y.net.addr_queries[i];
            if query_due(q, now) {
                &&& a.net.addr_queries[i] == (nonce, query_bumped(q, now))
                &&& forall|k: Seq<u8>|
                    q.asked.contains(k) && !q.answered.contains(k) && #[trigger] can_seal(k, 53)
                        ==> is_told(
                        y,
                        a.out,
                        PktType::AddrQuery,
                        0,
                        k,
                        addr_query_bytes(q.target, nonce, 0),
                    )
            } else {
                a.net.addr_queries[i] == (nonce, q)
            }
        }),
{
    let (nonce, q) = y.net.addr_queries[i];
    let n = steps.len() - 1;
    lemma_repeats_frame(y, steps, now, i);
    lemma_repeats_tail(y, steps, now, i, n);
    assert(repeats_at(steps, i, now));
    let x = steps[i];
    let z = steps[i + 1];
    assert(x.net.addr_queries[i] == y.net.addr_queries[i]);
    if query_due(q, now) {
        let e = World {
            net: NetState {
                addr_queries: x.net.addr_queries.update(i, (nonce, query_bumped(q, now))),
                ..x.net
            },
            ..x
        };
        let inner = addr_query_bytes(q.target, nonce, 0);
        assert(inner.len() == 53);
        let peers = unanswered(q.asked, q.answered);
        let to = sealable(peers, inner.len());
        let packets = choose|packets: Seq<Seq<u8>>|
            are_sealed_for(e.net.me, PktType::AddrQuery, 0, to, inner, packets) && z
                == #[trigger] peers_sent(e, to, packets);
        lemma_round_calm(e, to, packets);
        assert(a.net.addr_queries[i] == (nonce, query_bumped(q, now)));
        assert forall|k: Seq<u8>|
            q.asked.contains(k) && !q.answered.contains(k) && #[trigger] can_seal(
                k,
                53,
            ) implies is_told(y, a.out, PktType::AddrQuery, 0, k, inner) by {
            lemma_unanswered_has(q.asked, q.answered, k);
            lemma_sealable(peers, 53, k);
            lemma_round_tells(e, PktType::AddrQuery, 0, to, inner, packets, k);
            let packet = choose|packet: Seq<u8>| #[trigger]
                is_sealed_packet(e.net.me, PktType::AddrQuery, 0, 0, k, inner, packet)
                    && reaches(e, z.out, k, packet);
            lemma_reaches_later(y, e, z.out, a.out, k, packet);
        }
    }
}

pub proof fn lemma_unanswered_has(asked: Seq<Seq<u8>>, done: Seq<Seq<u8>>, k: Seq<u8>)
    ensures
        unanswered(asked, done).contains(k) <==> asked.contains(k) && !done.contains(k),
    decreases asked.len(),
{
    if asked.len() > 0 {
        let t = asked.drop_last();
        lemma_unanswered_has(t, done, k);
        let f = unanswered(t, done);
        assert(asked =~= t.push(asked.last()));
        lemma_push_contains(t, asked.last(), k);
        lemma_push_contains(f, asked.last(), k);
    }
}

/// A query that has waited for six seconds ends, as not found. Before that,
/// one that is due and was repeated less than twice is repeated: everyone who
/// was asked and has not answered is asked again under the same number, at all
/// of its addresses, and the query is counted once more and waits for two
/// seconds. Any other one stays as it is.
pub proof fn law_queries_after_turn(
    w: World,
    w2: World,
    now: u64,
    local: LocalIps,
    nonce: Seq<u8>,
)
    requires
        ticks(w, w2, now, local),
        distinct_keys(w.net.addr_queries),
        nonce.len() == 16,
        lookup(w.net.addr_queries, nonce) matches Some(q) ==> q.target.len() == 32,
    ensures
        match lookup(w.net.addr_queries, nonce) {
            None => lookup(w2.net.addr_queries, nonce) is None,
            Some(q) => if is_over(q, now) {
                &&& lookup(w2.net.addr_queries, nonce) is None
                &&& appears(
                    w2.out,
                    w.out.len() as int,
                    OutView::Event(
                        EventView::AddrResult { peer: q.target, found: false, count: 0 },
                    ),
                )
            } else if now >= q.next_retry && q.attempts < 2 {
                &&& lookup(w2.net.addr_queries, nonce) == Some(
                    QueryView {
                        attempts: (q.attempts + 1) as u8,
                        next_retry: if now + 2000 <= u64::MAX {
                            (now + 2000) as u64
                        } else {
                            u64::MAX
                        },
                        ..q
                    },
                )
                &&& forall|k: Seq<u8>|
                    q.asked.contains(k) && !q.answered.contains(k) && #[trigger] can_seal(k, 53)
                        ==> is_told(
                        w,
                        w2.out,
                        PktType::AddrQuery,
                        0,
                        k,
                        addr_query_bytes(q.target, nonce, 0),
                    )
            } else {
                lookup(w2.net.addr_queries, nonce) == Some(q)
            },
        },
{
    let t = lemma_turn(w, w2, now, local);
    let qs = w.net.addr_queries;
    let y = queries_checked(t.sent, now);
    let kept = queries_kept(qs, now);
    let n = w.out.len() as int;
    lemma_queries_kept(qs, now, nonce);
    lemma_expiry_calm(t.sent.out, qs, now);
    let steps = choose|steps: Seq<World>| #[trigger] repeats_by(y, t.asked, steps, now);
    lemma_repeats_frame(y, steps, now, steps.len() - 1);
    lemma_continues_trans(t.asked.out, t.probed.out, t.pushed.out);
    lemma_continues_trans(t.asked.out, t.pushed.out, w2.out);
    lemma_continues_trans(y.out, t.asked.out, w2.out);
    lemma_continues_trans(t.sent.out, y.out, w2.out);
    let after = t.asked.net.addr_queries;
    assert forall|i: int| 0 <= i < kept.len() implies (#[trigger] after[i]).0 == kept[i].0 by {
        lemma_query_key(y, t.asked, steps, now, i);
    }
    lemma_key_index(qs, nonce);
    lemma_key_index(kept, nonce);
    lemma_key_index_is(after, nonce, key_index(kept, nonce));
    match lookup(qs, nonce) {
        None => {},
        Some(q) => {
            if is_over(q, now) {
                let e = OutView::Event(
                    EventView::AddrResult { peer: q.target, found: false, count: 0 },
                );
                lemma_expired_told(t.sent.out, qs, now, key_index(qs, nonce));
                lemma_appears_earlier(y.out, n, t.sent.out.len() as int, e);
                lemma_appears_later(y.out, w2.out, n, e);
            } else {
                let i = key_index(kept, nonce);
                lemma_query_repeated(y, t.asked, steps, now, i);
                if query_due(q, now) {
                    assert forall|k: Seq<u8>|
                        q.asked.contains(k) && !q.answered.contains(k) && #[trigger] can_seal(
                            k,
                            53,
                        ) implies is_told(
                        w,
                        w2.out,
                        PktType::AddrQuery,
                        0,
                        k,
                        addr_query_bytes(q.target, nonce, 0),
                    ) by {
                        let inner = addr_query_bytes(q.target, nonce, 0);
                        let packet = choose|packet: Seq<u8>| #[trigger]
                            is_sealed_packet(
                                y.net.me,
                                PktType::AddrQuery,
                                0,
                                0,
                                k,
                                inner,
                                packet,
                            ) && reaches(y, t.asked.out, k, packet);
                        lemma_reaches_later(w, y, t.asked.out, w2.out, k, packet);
                    }
                }
            }
        },
    }
}

proof fn lemma_query_key(y: World, a: World, steps: Seq<World>, now: u64, i: int)
    requires
        repeats_by(y, a, steps, now),
        0 <= i < y.net.addr_queries.len(),
    ensures
        a.net.addr_queries[i].0 == y.net.addr_queries[i].0,
{
    lemma_repeats_frame(y, steps, now, i);
    lemma_repeats_tail(y, steps, now, i, steps.len() - 1);
    assert(repeats_at(steps, i, now));
    let (nonce, q) = y.net.addr_queries[i];
    let x = steps[i];
    if query_due(q, now) {
        let e = World {
            net: NetState {
                addr_queries: x.net.addr_queries.update(i, (nonce, query_bumped(q, now))),
                ..x.net
            },
            ..x
        };
        let inner = addr_query_bytes(q.target, nonce, 0);
        let to = sealable(unanswered(q.asked, q.answered), inner.len());
        let packets = choose|packets: Seq<Seq<u8>>|
            are_sealed_for(e.net.me, PktType::AddrQuery, 0, to, inner, packets) && steps[i + 1]
                == #[trigger] peers_sent(e, to, packets);
        lemma_round_calm(e, to, packets);
    }
}

// ---------- what is found ----------

/// Whether a message that had failed is on its way again.
pub open spec fn is_back(
    w: World,
    w2: World,
    who: Seq<u8>,
    seq: u32,
    bytes: Seq<u8>,
    now: u64,
) -> bool {
    &&& reaches(w, w2.out, who, bytes)
    &&& waits_afresh(w2.net, who, seq, bytes, now)
    &&& lookup(w2.net.failed_sends, (who, seq)) is None
}

proof fn lemma_numbers_resent(
    w: World,
    target: Seq<u8>,
    seqs: Seq<u32>,
    now: u64,
    seq: u32,
    bytes: Seq<u8>,
)
    requires
        has_address(w, target),
    ensures
        ({
            let r = numbers_resent(w, target, seqs, now);
            let k = (target, seq);
            &&& continues(w.out, r.out)
            &&& r.book == w.book
            &&& r.net == (NetState {
                retx: r.net.retx,
                failed_sends: r.net.failed_sends,
                ..w.net
            })
            &&& lookup(w.net.failed_sends, k) == Some(bytes) && seqs.contains(seq) ==> is_back(
                w,
                r,
                target,
                seq,
                bytes,
                now,
            )
            &&& lookup(w.net.failed_sends, k) is None || !seqs.contains(seq) ==> lookup(
                r.net.failed_sends,
                k,
            ) == lookup(w.net.failed_sends, k) && lookup(r.net.retx, k) == lookup(w.net.retx, k)
        }),
    decreases seqs.len(),
{
    let k = (target, seq);
    if seqs.len() > 0 {
        let t = seqs.drop_last();
        let f = numbers_resent(w, target, t, now);
        let r = numbers_resent(w, target, seqs, now);
        let last = seqs.last();
        let key = (target, last);
        lemma_numbers_resent(w, target, t, now, seq, bytes);
        assert(seqs =~= t.push(last));
        lemma_push_contains(t, last, seq);
        lemma_has_address(w, target);
        match lookup(f.net.failed_sends, key) {
            Some(m) => {
                let g = World {
                    net: NetState {
                        failed_sends: without(f.net.failed_sends, key),
                        ..f.net
                    },
                    ..f
                };
                law_dispatched(g, target, last, m, now, k);
                lemma_continues_trans(w.out, f.out, r.out);
                let other = (target.push(0), last);
                assert(other.0.len() != target.len());
                law_table(f.net.failed_sends, key, m, other);
                if key != k {
                    law_table(f.net.failed_sends, key, m, k);
                    if is_back(w, f, target, seq, bytes, now) {
                        lemma_reaches_later(w, w, f.out, r.out, target, bytes);
                    }
                } else {
                    lemma_reaches_later(w, g, r.out, r.out, target, m);
                }
            },
            None => {},
        }
    }
}

/// What learning addresses of someone does.
proof fn lemma_learnt(
    w: World,
    target: Seq<u8>,
    ips: Seq<Seq<char>>,
    seqs: Seq<u32>,
    now: u64,
    seq: u32,
    bytes: Seq<u8>,
)
    requires
        distinct_keys(w.net.failed_sends),
        lookup(w.net.failed_sends, (target, seq)) == Some(bytes),
        seqs.contains(seq) || book_merged(w.book, target, ips) != w.book,
        has_address(World { book: book_merged(w.book, target, ips), ..w }, target),
    ensures
        ({
            let r = learnt(w, target, ips, seqs, now);
            is_back(World { book: r.book, ..w }, r, target, seq, bytes, now)
        }),
{
    let book = book_merged(w.book, target, ips);
    let pre = World { book, unsaved: true, ..w };
    let r = learnt(w, target, ips, seqs, now);
    if book == w.book {
        lemma_numbers_resent(w, target, seqs, now, seq, bytes);
    } else {
        let other = (target.push(0), seq);
        assert(other.0.len() != target.len());
        let a = retried_failed(pre, target, now);
        law_failed_go_out(pre, target, now, seq, other);
        lemma_resent(pre, pre.net.failed_sends, target, now);
        assert(has_address(pre, target));
        assert(a.book == book);
        lemma_numbers_resent(a, target, seqs, now, seq, bytes);
        lemma_reaches_later(pre, pre, a.out, r.out, target, bytes);
    }
}

pub proof fn lemma_learnt_frame(
    w: World,
    target: Seq<u8>,
    ips: Seq<Seq<char>>,
    seqs: Seq<u32>,
    now: u64,
)
    ensures
        ({
            let r = learnt(w, target, ips, seqs, now);
            &&& r.book == book_merged(w.book, target, ips)
            &&& continues(w.out, r.out)
            &&& r.net == (NetState {
                retx: r.net.retx,
                failed_sends: r.net.failed_sends,
                ..w.net
            })
        }),
{
    let book = book_merged(w.book, target, ips);
    let pre = World { book, unsaved: true, ..w };
    lemma_resent(pre, pre.net.failed_sends, target, now);
    lemma_resent_grows(pre, pre.net.failed_sends, target, now);
    let a = if book == w.book {
        w
    } else {
        retried_failed(pre, target, now)
    };
    lemma_numbers_frame(a, target, seqs, now);
    lemma_continues_trans(w.out, a.out, learnt(w, target, ips, seqs, now).out);
}

proof fn lemma_numbers_frame(w: World, target: Seq<u8>, seqs: Seq<u32>, now: u64)
    ensures
        ({
            let r = numbers_resent(w, target, seqs, now);
            &&& continues(w.out, r.out)
            &&& r.book == w.book
            &&& r.net == (NetState {
                retx: r.net.retx,
                failed_sends: r.net.failed_sends,
                ..w.net
            })
        }),
    decreases seqs.len(),
{
    if seqs.len() > 0 {
        let t = seqs.drop_last();
        lemma_numbers_frame(w, target, t, now);
        let f = numbers_resent(w, target, t, now);
        let r = numbers_resent(w, target, seqs, now);
        assert(continues(f.out, r.out));
        lemma_continues_trans(w.out, f.out, r.out);
    }
}

/// An answer that names addresses ends the query as found. The addresses are
/// recorded for the one who was sought. The messages that the search was made
/// for and that still count as failed are sent again, to all the addresses then
/// known, and so is every other one that had failed where an address is new.
/// Other queries are left alone.
pub proof fn law_hit_is_used(
    w: World,
    w2: World,
    bytes: Seq<u8>,
    src: AddrView,
    now: Moment,
    r: Result<(), NetError>,
    peer: Me,
    flags: u8,
    number: u32,
    inner: Seq<u8>,
    ans: AnswerView,
    q: QueryView,
    f: FriendView,
    seq: u32,
    other: Seq<u8>,
)
    requires
        packet_step(w, w2, bytes, src, now, r),
        taken_for(w.net.me, w.book, bytes, peer, PktType::AddrAnswer, flags, number, inner),
        addr_answer_of(inner) == Ok::<AnswerView, ProtoError>(ans),
        ans.hit,
        ans.ips.len() > 0,
        lookup(w.net.addr_queries, ans.nonce_q) == Some(q),
        q.target == ans.target_id,
        friend_of(w.book, q.target) == Some(f),
        id::hex_text(q.target) != id::hex_text(peer.ed_pub),
        distinct_keys(w.net.failed_sends),
        other != ans.nonce_q,
    ensures
        r is Ok,
        lookup(w2.net.addr_queries, ans.nonce_q) is None,
        lookup(w2.net.addr_queries, other) == lookup(w.net.addr_queries, other),
        appears(
            w2.out,
            w.out.len() as int,
            OutView::Event(
                EventView::AddrResult { peer: q.target, found: true, count: ans.ips.len() },
            ),
        ),
        ({
            &&& friend_of(w2.book, q.target) matches Some(f2)
            &&& f2 == (FriendView { ips: f2.ips, ..f })
            &&& took_in(f.ips, ans.ips, f2.ips)
        }),
        (q.fail_seqs.contains(seq) || friend_of(w2.book, q.target) != Some(f)) && has_address(
            w2,
            q.target,
        ) ==> match lookup(w.net.failed_sends, (q.target, seq)) {
            Some(m) => is_back(
                World { book: w2.book, ..w },
                w2,
                q.target,
                seq,
                m,
                now.tick,
            ),
            None => true,
        },
{
    let p = accepted(w.net.me, w.book, bytes)->Ok_0;
    let who = p.sender_id;
    let ip = ip_port_text(src.ip(), src.port());
    let a = noted_seen(w, who, ip, now);
    let k = (q.target, seq);
    lemma_noted(w, who, ip, now, k);
    lemma_noted_distinct(w, who, ip, now);
    let b = lemma_packet(w, w2, bytes, src, now, r, p);
    assert(b == answered(a, who, ans, now.tick));
    let w1 = World {
        net: NetState { addr_queries: without(a.net.addr_queries, ans.nonce_q), ..a.net },
        ..a
    };
    let l = learnt(w1, q.target, ans.ips, q.fail_seqs, now.tick);
    let e = EventView::AddrResult { peer: q.target, found: true, count: ans.ips.len() };
    assert(b == emitted(l, e));
    lemma_learnt_frame(w1, q.target, ans.ips, q.fail_seqs, now.tick);
    law_table(a.net.addr_queries, ans.nonce_q, q, other);
    assert(b.out[b.out.len() - 1] == OutView::Event(e));
    assert(w2.out[b.out.len() - 1] == OutView::Event(e));
    lemma_book_of(w.book, who, ip, now.unix, ans.ips, q.target);
    lemma_book_of(a.book, q.target, ip, now.unix, ans.ips, who);
    lemma_took_in(f.ips, ans.ips);
    if (q.fail_seqs.contains(seq) || friend_of(w2.book, q.target) != Some(f)) && has_address(
        w2,
        q.target,
    ) {
        match lookup(w.net.failed_sends, k) {
            Some(m) => {
                let from = World { book: l.book, ..w1 };
                lemma_has_address(w2, q.target);
                lemma_has_address(from, q.target);
                assert(has_address(from, q.target));
                lemma_learnt(w1, q.target, ans.ips, q.fail_seqs, now.tick, seq, m);
                lemma_continues_trans(l.out, b.out, w2.out);
                lemma_reaches_later(
                    World { book: w2.book, ..w },
                    from,
                    l.out,
                    w2.out,
                    q.target,
                    m,
                );
            },
            None => {},
        }
    }
}

} // verus!
