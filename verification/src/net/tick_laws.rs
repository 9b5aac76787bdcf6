//! What a turn of the clock does: packets without an acknowledgement go out
//! again, and each part of a turn leaves what belongs to the others alone.

use vstd::prelude::*;

use crate::net::announce::{
    address_changed, address_checked, announces, announces_ips, are_probes, gives_up_at,
    gives_up_by, gossips, polls_probes, probe_given_up, probed, probes_over, probes_polled,
    probes_repeated, probes_sent, LocalIps,
};
use crate::net::attach::{chunks_cancelled, recvs_kept, retx_cancelled};
use crate::net::driver::{
    all_given_up, checks_address, own_chunk, resends_sent, retransmitted, ticks,
};
use crate::net::event::{EventView, OutView};
use crate::net::ip::AddrView;
use crate::net::lookup::{
    expiry_events, queries_checked, query_bumped, query_due, repeats_at, repeats_by,
    repeats_queries, repeats_query, unanswered,
};
use crate::net::node::{sent_to_peer, ChunkRefView, NetState, ProbeView, PushView, QueryView, World};
use crate::net::packet::{PktType, FLAG_EPHEMERAL};
use crate::net::pushes::{
    are_push_packets, delivered, delivers_pushes, polls_pushes, polls_pushes_by, polls_pushes_for,
    push_due, pushes_for, pushes_pruned, pushes_sent, table_keys,
};
use crate::net::retransmit::{failures, resends, still_waiting, PendingView, Waiting};
use crate::net::rounds::{are_sealed_for, friend_keys, keys_but, peers_sent, sealable};
use crate::net::route_laws::{
    appears, continues, law_sent_to_friend, lemma_appears_earlier, lemma_appears_later,
    lemma_continues_trans, lemma_reaches_later, reaches, recorded, wire_form,
};
use crate::proto::addressing::{addr_query_bytes, gossip_bytes};
use crate::table::{
    distinct_keys, has_key, key_index, law_table, lemma_key_index, lemma_key_index_is, lookup,
};

verus! {

// ---------- rounds of datagrams ----------

/// A round of datagrams reaches everyone it is for.
pub proof fn lemma_round(w: World, peers: Seq<Seq<u8>>, packets: Seq<Seq<u8>>)
    requires
        packets.len() <= peers.len(),
    ensures
        ({
            let r = peers_sent(w, peers, packets);
            &&& r == (World { out: r.out, ..w })
            &&& continues(w.out, r.out)
            &&& forall|i: int|
                0 <= i < packets.len() ==> reaches(w, r.out, peers[i], #[trigger] packets[i])
        }),
    decreases packets.len(),
{
    if packets.len() > 0 {
        let t = packets.drop_last();
        let front = peers_sent(w, peers, t);
        let all = peers_sent(w, peers, packets);
        let k = packets.len() - 1;
        lemma_round(w, peers, t);
        law_sent_to_friend(front, peers[k], packets.last());
        lemma_continues_trans(w.out, front.out, all.out);
        assert forall|i: int| 0 <= i < packets.len() implies reaches(
            w,
            all.out,
            peers[i],
            #[trigger] packets[i],
        ) by {
            if i < k {
                assert(t[i] == packets[i]);
                lemma_reaches_later(w, w, front.out, all.out, peers[i], packets[i]);
            } else {
                lemma_reaches_later(w, front, all.out, all.out, peers[i], packets[i]);
            }
        }
    }
}

/// A round sends to nobody else, and nothing else.
pub proof fn lemma_round_only(w: World, peers: Seq<Seq<u8>>, packets: Seq<Seq<u8>>, k: int)
    requires
        packets.len() <= peers.len(),
        w.out.len() <= k < peers_sent(w, peers, packets).out.len(),
    ensures
        exists|i: int| #[trigger]
            is_sent_to(w, peers_sent(w, peers, packets).out[k], peers[i], packets[i]) && 0 <= i
                < packets.len(),
    decreases packets.len(),
{
    if packets.len() > 0 {
        let t = packets.drop_last();
        let n = t.len() as int;
        let f = peers_sent(w, peers, t);
        let r = peers_sent(w, peers, packets);
        lemma_round(w, peers, t);
        law_sent_to_friend(f, peers[n], packets[n]);
        if k < f.out.len() {
            lemma_round_only(w, peers, t, k);
            assert(r.out[k] == f.out[k]);
            let i = choose|i: int| #[trigger]
                is_sent_to(w, f.out[k], peers[i], t[i]) && 0 <= i < t.len();
            assert(t[i] == packets[i]);
            assert(is_sent_to(w, r.out[k], peers[i], packets[i]));
        } else {
            assert(is_sent_to(w, r.out[k], peers[n], packets[n]));
        }
    }
}

/// Whether an output is a datagram to an address of someone.
pub open spec fn is_sent_to(w: World, o: OutView, id: Seq<u8>, bytes: Seq<u8>) -> bool {
    exists|a: AddrView|
        recorded(w.book, id, a) && o == (OutView::Send {
            to: #[trigger] wire_form(w.net.use_v6, a),
            bytes,
        })
}

// ---------- retransmission ----------

pub proof fn lemma_resends_sent(w: World, again: Seq<PendingView>)
    ensures
        ({
            let r = resends_sent(w, again);
            &&& r == (World { out: r.out, ..w })
            &&& continues(w.out, r.out)
            &&& forall|i: int|
                0 <= i < again.len() ==> reaches(
                    w,
                    r.out,
                    (#[trigger] again[i]).recipient,
                    again[i].bytes,
                )
        }),
    decreases again.len(),
{
    if again.len() > 0 {
        let t = again.drop_last();
        let p = again.last();
        let front = resends_sent(w, t);
        let all = resends_sent(w, again);
        lemma_resends_sent(w, t);
        law_sent_to_friend(front, p.recipient, p.bytes);
        lemma_continues_trans(w.out, front.out, all.out);
        assert forall|i: int| 0 <= i < again.len() implies reaches(
            w,
            all.out,
            (#[trigger] again[i]).recipient,
            again[i].bytes,
        ) by {
            if i < t.len() {
                assert(t[i] == again[i]);
                lemma_reaches_later(w, w, front.out, all.out, t[i].recipient, t[i].bytes);
            } else {
                lemma_reaches_later(w, front, all.out, all.out, p.recipient, p.bytes);
            }
        }
    }
}

/// Giving packets up only adds events, and touches only what waits, what has
/// failed and the transfers.
pub proof fn lemma_given_up_frame(w: World, failed: Seq<PendingView>)
    ensures
        ({
            let r = all_given_up(w, failed);
            &&& r.net == (NetState {
                retx: r.net.retx,
                failed_sends: r.net.failed_sends,
                chunk_seqs: r.net.chunk_seqs,
                attach_sends: r.net.attach_sends,
                ..w.net
            })
            &&& r == (World { net: r.net, out: r.out, ..w })
            &&& continues(w.out, r.out)
            &&& forall|k: int| w.out.len() <= k < r.out.len() ==> #[trigger] r.out[k] is Event
        }),
    decreases failed.len(),
{
    if failed.len() > 0 {
        let t = failed.drop_last();
        lemma_given_up_frame(w, t);
        let front = all_given_up(w, t);
        let all = all_given_up(w, failed);
        assert(continues(front.out, all.out));
        lemma_continues_trans(w.out, front.out, all.out);
        assert forall|k: int| w.out.len() <= k < all.out.len() implies #[trigger] all.out[k]
            is Event by {
            if k < front.out.len() {
                assert(all.out[k] == front.out[k]);
            }
        }
    }
}

proof fn lemma_polled(s: Waiting, now: u64, i: int)
    requires
        0 <= i < s.len(),
        now >= s[i].1.next_retry,
        s[i].1.attempts < 3,
    ensures
        exists|j: int|
            0 <= j < resends(s, now).len() && (#[trigger] resends(s, now)[j]).recipient
                == s[i].1.recipient && resends(s, now)[j].bytes == s[i].1.bytes,
    decreases s.len(),
{
    let t = s.drop_last();
    let r = resends(s, now);
    if i < t.len() {
        assert(t[i] == s[i]);
        lemma_polled(t, now, i);
        let j = choose|j: int|
            0 <= j < resends(t, now).len() && (#[trigger] resends(t, now)[j]).recipient
                == s[i].1.recipient && resends(t, now)[j].bytes == s[i].1.bytes;
        assert(r[j] == resends(t, now)[j]);
    } else {
        assert(r[r.len() - 1].bytes == s[i].1.bytes);
    }
}

/// What keeps waiting, and as what.
proof fn lemma_still_waiting(s: Waiting, now: u64, k: (Seq<u8>, u32))
    requires
        distinct_keys(s),
    ensures
        distinct_keys(still_waiting(s, now)),
        forall|i: int|
            0 <= i < still_waiting(s, now).len() ==> has_key(
                s,
                (#[trigger] still_waiting(s, now)[i]).0,
            ),
        match lookup(s, k) {
            None => lookup(still_waiting(s, now), k) is None,
            Some(p) => if now < p.next_retry {
                lookup(still_waiting(s, now), k) == Some(p)
            } else if p.attempts >= 3 {
                lookup(still_waiting(s, now), k) is None
            } else {
                &&& lookup(still_waiting(s, now), k) matches Some(q)
                &&& q.attempts == p.attempts + 1
                &&& q.next_retry as int == if now + 2000 <= u64::MAX {
                    now + 2000
                } else {
                    u64::MAX as int
                }
                &&& q.bytes == p.bytes
                &&& q.recipient == p.recipient
                &&& q.seq == p.seq
            },
        },
    decreases s.len(),
{
    lemma_key_index(s, k);
    let r = still_waiting(s, now);
    lemma_key_index(r, k);
    if s.len() > 0 {
        let t = s.drop_last();
        let f = still_waiting(t, now);
        let (lk, lp) = s.last();
        lemma_key_index(t, k);
        lemma_key_index(f, k);
        lemma_key_index(t, lk);
        assert forall|i: int, j: int| 0 <= i < j < t.len() implies (#[trigger] t[i]).0 != (
        #[trigger] t[j]).0 by {
            assert(s[i] == t[i] && s[j] == t[j]);
        }
        lemma_still_waiting(t, now, k);
        assert(!has_key(t, lk)) by {
            if has_key(t, lk) {
                let j = key_index(t, lk);
                assert(s[j].0 != s[s.len() - 1].0);
            }
        }
        assert forall|i: int| 0 <= i < r.len() implies has_key(s, (#[trigger] r[i]).0) by {
            lemma_key_index(s, r[i].0);
            if i < f.len() {
                assert(r[i] == f[i]);
                lemma_key_index(t, f[i].0);
                let j = key_index(t, f[i].0);
                assert(s[j] == t[j]);
            } else {
                assert(s[s.len() - 1].0 == r[i].0);
            }
        }
        assert forall|i: int, j: int| 0 <= i < j < r.len() implies (#[trigger] r[i]).0 != (
        #[trigger] r[j]).0 by {
            assert(r[i] == f[i]);
            if j < f.len() {
                assert(r[j] == f[j]);
            } else {
                assert(has_key(t, f[i].0));
            }
        }
        if k == lk {
            lemma_key_index_is(s, k, s.len() - 1);
            if has_key(f, k) {
                assert(has_key(t, f[key_index(f, k)].0));
            }
            if r.len() > f.len() {
                lemma_key_index_is(r, k, r.len() - 1);
            } else {
                assert(r == f);
            }
        } else if has_key(t, k) {
            let j = key_index(t, k);
            lemma_key_index_is(s, k, j);
            if has_key(f, k) {
                lemma_key_index_is(r, k, key_index(f, k));
            } else {
                lemma_key_index_is(r, k, r.len() as int);
            }
        } else {
            assert forall|j: int| 0 <= j < s.len() implies (#[trigger] s[j]).0 != k by {
                if j < t.len() {
                    assert(t[j] == s[j]);
                }
            }
            lemma_key_index_is(s, k, s.len() as int);
            assert forall|j: int| 0 <= j < r.len() implies (#[trigger] r[j]).0 != k by {
                if j < f.len() {
                    assert(f[j] == r[j]);
                }
            }
            lemma_key_index_is(r, k, r.len() as int);
        }
    }
}

/// Whether no chunk of a transfer goes to a peer under a number.
pub open spec fn no_chunk(chunks: Seq<(u32, ChunkRefView)>, k: (Seq<u8>, u32)) -> bool {
    forall|i: int|
        0 <= i < chunks.len() ==> !((#[trigger] chunks[i]).0 == k.1 && chunks[i].1.recipient == k.0)
}

proof fn lemma_cancelled_spares(
    retx: Waiting,
    chunks: Seq<(u32, ChunkRefView)>,
    recipient: Seq<u8>,
    transfer: Seq<u8>,
    k: (Seq<u8>, u32),
)
    requires
        no_chunk(chunks, k),
    ensures
        lookup(retx_cancelled(retx, chunks, recipient, transfer), k) == lookup(retx, k),
        no_chunk(chunks_cancelled(chunks, recipient, transfer), k),
    decreases chunks.len(),
{
    if chunks.len() > 0 {
        let t = chunks.drop_last();
        let (seq, c) = chunks.last();
        assert(chunks[chunks.len() - 1] == (seq, c));
        assert forall|i: int| 0 <= i < t.len() implies !((#[trigger] t[i]).0 == k.1
            && t[i].1.recipient == k.0) by {
            assert(chunks[i] == t[i]);
        }
        lemma_cancelled_spares(retx, t, recipient, transfer, k);
        let front = retx_cancelled(retx, t, recipient, transfer);
        if c.recipient == recipient && c.transfer == transfer {
            law_table(front, (recipient, seq), arbitrary(), k);
        }
        let kept = chunks_cancelled(t, recipient, transfer);
        let all = chunks_cancelled(chunks, recipient, transfer);
        assert forall|i: int| 0 <= i < all.len() implies !((#[trigger] all[i]).0 == k.1
            && all[i].1.recipient == k.0) by {
            if i < kept.len() {
                assert(all[i] == kept[i]);
            }
        }
    }
}

/// Giving packets up leaves a message alone that is not among them, and
/// reports and keeps one that is.
proof fn lemma_given_up_message(w: World, failed: Seq<PendingView>, k: (Seq<u8>, u32))
    requires
        no_chunk(w.net.chunk_seqs, k),
        forall|i: int, j: int|
            0 <= i < j < failed.len() ==> !((#[trigger] failed[i]).recipient == (
            #[trigger] failed[j]).recipient && failed[i].seq == failed[j].seq),
    ensures
        ({
            let r = all_given_up(w, failed);
            let lost = OutView::Event(EventView::MessageFailed { peer: k.0, seq: k.1 });
            &&& no_chunk(r.net.chunk_seqs, k)
            &&& lookup(r.net.retx, k) == lookup(w.net.retx, k)
            &&& forall|i: int|
                0 <= i < failed.len() && (#[trigger] failed[i]).recipient == k.0 && failed[i].seq
                    == k.1 ==> appears(r.out, w.out.len() as int, lost) && lookup(
                    r.net.failed_sends,
                    k,
                ) == Some(failed[i].bytes)
            &&& (forall|i: int|
                0 <= i < failed.len() ==> !((#[trigger] failed[i]).recipient == k.0
                    && failed[i].seq == k.1)) ==> lookup(r.net.failed_sends, k) == lookup(
                w.net.failed_sends,
                k,
            ) && !appears(r.out, w.out.len() as int, lost)
        }),
    decreases failed.len(),
{
    let r = all_given_up(w, failed);
    let lost = OutView::Event(EventView::MessageFailed { peer: k.0, seq: k.1 });
    let n = w.out.len() as int;
    if failed.len() > 0 {
        let t = failed.drop_last();
        let f = failed.last();
        let fk = (f.recipient, f.seq);
        let x = all_given_up(w, t);
        assert forall|i: int, j: int| 0 <= i < j < t.len() implies !((
        #[trigger] t[i]).recipient == (#[trigger] t[j]).recipient && t[i].seq == t[j].seq) by {
            assert(failed[i] == t[i] && failed[j] == t[j]);
        }
        lemma_given_up_message(w, t, k);
        lemma_given_up_frame(w, t);
        assert(failed[failed.len() - 1] == f);
        let chunk = own_chunk(w.net.chunk_seqs, f);
        lemma_key_index(w.net.chunk_seqs, f.seq);
        assert(continues(x.out, r.out));
        match chunk {
            Some(c) => {
                assert(fk != k) by {
                    let i = key_index(w.net.chunk_seqs, f.seq);
                    assert(w.net.chunk_seqs[i] == (f.seq, c));
                }
                lemma_cancelled_spares(x.net.retx, x.net.chunk_seqs, c.recipient, c.transfer, k);
            },
            None => {
                if fk == k {
                    let other = (k.0.push(0), k.1);
                    assert(other.0.len() != k.0.len());
                    law_table(x.net.failed_sends, k, f.bytes, other);
                    assert(r.out[r.out.len() - 1] == lost);
                } else {
                    law_table(x.net.failed_sends, fk, f.bytes, k);
                }
            },
        }
        assert forall|i: int|
            0 <= i < failed.len() && (#[trigger] failed[i]).recipient == k.0 && failed[i].seq
                == k.1 implies appears(r.out, n, lost) && lookup(r.net.failed_sends, k) == Some(
            failed[i].bytes,
        ) by {
            if i < t.len() {
                assert(t[i] == failed[i]);
                lemma_appears_later(x.out, r.out, n, lost);
            }
        }
        if forall|i: int|
            0 <= i < failed.len() ==> !((#[trigger] failed[i]).recipient == k.0
                && failed[i].seq == k.1) {
            assert forall|i: int| 0 <= i < t.len() implies !((#[trigger] t[i]).recipient == k.0
                && t[i].seq == k.1) by {
                assert(failed[i] == t[i]);
            }
            if appears(r.out, n, lost) {
                let j = choose|j: int| n <= j < r.out.len() && #[trigger] r.out[j] == lost;
                if j < x.out.len() {
                    assert(x.out[j] == lost);
                }
                assert(false);
            }
        }
    }
}

/// Whether a waiting packet is the one that is given up.
pub open spec fn lost_as(e: ((Seq<u8>, u32), PendingView), f: PendingView, now: u64) -> bool {
    &&& e.0 == (f.recipient, f.seq)
    &&& e.1.bytes == f.bytes
    &&& now >= e.1.next_retry
    &&& e.1.attempts >= 3
}

proof fn lemma_failure_from(s: Waiting, now: u64, i: int) -> (m: int)
    requires
        0 <= i < failures(s, now).len(),
    ensures
        0 <= m < s.len(),
        lost_as(s[m], failures(s, now)[i], now),
    decreases s.len(),
{
    let t = s.drop_last();
    let a = failures(t, now);
    let r = failures(s, now);
    if i < a.len() {
        assert(r[i] == a[i]);
        let m = lemma_failure_from(t, now, i);
        assert(s[m] == t[m]);
        m
    } else {
        s.len() - 1
    }
}

pub proof fn lemma_failure_of(s: Waiting, now: u64, m: int) -> (i: int)
    requires
        0 <= m < s.len(),
        now >= s[m].1.next_retry,
        s[m].1.attempts >= 3,
    ensures
        0 <= i < failures(s, now).len(),
        lost_as(s[m], failures(s, now)[i], now),
    decreases s.len(),
{
    let t = s.drop_last();
    let a = failures(t, now);
    let r = failures(s, now);
    if m < t.len() {
        assert(s[m] == t[m]);
        let i = lemma_failure_of(t, now, m);
        assert(r[i] == a[i]);
        i
    } else {
        r.len() - 1
    }
}

proof fn lemma_failures_distinct(s: Waiting, now: u64)
    requires
        distinct_keys(s),
    ensures
        forall|i: int, j: int|
            0 <= i < j < failures(s, now).len() ==> !((#[trigger] failures(s, now)[i]).recipient
                == (#[trigger] failures(s, now)[j]).recipient && failures(s, now)[i].seq
                == failures(s, now)[j].seq),
    decreases s.len(),
{
    if s.len() > 0 {
        let t = s.drop_last();
        let a = failures(t, now);
        let r = failures(s, now);
        assert forall|i: int, j: int| 0 <= i < j < t.len() implies (#[trigger] t[i]).0 != (
        #[trigger] t[j]).0 by {
            assert(s[i] == t[i] && s[j] == t[j]);
        }
        lemma_failures_distinct(t, now);
        assert forall|i: int, j: int| 0 <= i < j < r.len() implies !((#[trigger] r[i]).recipient
            == (#[trigger] r[j]).recipient && r[i].seq == r[j].seq) by {
            assert(r[i] == a[i]);
            if j < a.len() {
                assert(r[j] == a[j]);
            } else {
                let m = lemma_failure_from(t, now, i);
                assert(s[m] == t[m]);
                assert(s[m].0 != s[s.len() - 1].0);
            }
        }
    }
}

// ---------- the other parts of a turn ----------

/// Whether `b` is `a` with datagrams, results of queries and notes after it.
pub open spec fn calmly_continues(a: Seq<OutView>, b: Seq<OutView>) -> bool {
    &&& continues(a, b)
    &&& forall|k: int|
        a.len() <= k < b.len() ==> (#[trigger] b[k] is Send || b[k]
            matches OutView::Event(EventView::AddrResult { .. }) || b[k]
            matches OutView::Event(EventView::Status(_)))
}

pub proof fn lemma_calm_trans(a: Seq<OutView>, b: Seq<OutView>, c: Seq<OutView>)
    requires
        calmly_continues(a, b),
        calmly_continues(b, c),
    ensures
        calmly_continues(a, c),
{
    lemma_continues_trans(a, b, c);
    assert forall|k: int| a.len() <= k < c.len() implies (#[trigger] c[k] is Send || c[k]
        matches OutView::Event(EventView::AddrResult { .. }) || c[k]
        matches OutView::Event(EventView::Status(_))) by {
        if k < b.len() {
            assert(c[k] == b[k]);
        }
    }
}

proof fn lemma_sent_calm(w: World, id: Seq<u8>, bytes: Seq<u8>)
    ensures
        calmly_continues(w.out, sent_to_peer(w, id, bytes).out),
{
}

pub proof fn lemma_round_calm(w: World, peers: Seq<Seq<u8>>, packets: Seq<Seq<u8>>)
    ensures
        calmly_continues(w.out, peers_sent(w, peers, packets).out),
        peers_sent(w, peers, packets) == (World { out: peers_sent(w, peers, packets).out, ..w }),
    decreases packets.len(),
{
    if packets.len() > 0 {
        let t = packets.drop_last();
        lemma_round_calm(w, peers, t);
        let f = peers_sent(w, peers, t);
        lemma_sent_calm(f, peers[packets.len() - 1], packets.last());
        lemma_calm_trans(w.out, f.out, peers_sent(w, peers, packets).out);
    }
}

pub proof fn lemma_expiry_calm(out: Seq<OutView>, qs: Seq<(Seq<u8>, QueryView)>, now: u64)
    ensures
        calmly_continues(out, expiry_events(out, qs, now)),
    decreases qs.len(),
{
    if qs.len() > 0 {
        let t = qs.drop_last();
        lemma_expiry_calm(out, t, now);
        let f = expiry_events(out, t, now);
        let r = expiry_events(out, qs, now);
        assert(calmly_continues(f, r));
        lemma_calm_trans(out, f, r);
    }
}

/// What repeating one query does.
pub proof fn lemma_repeat_one(w: World, w2: World, i: int, now: u64)
    requires
        repeats_query(w, w2, i, now),
        0 <= i < w.net.addr_queries.len(),
    ensures
        calmly_continues(w.out, w2.out),
        w2.net == (NetState { addr_queries: w2.net.addr_queries, ..w.net }),
        w2 == (World { net: w2.net, out: w2.out, ..w }),
        w2.net.addr_queries.len() == w.net.addr_queries.len(),
        forall|j: int|
            0 <= j < w.net.addr_queries.len() && j != i ==> w2.net.addr_queries[j]
                == #[trigger] w.net.addr_queries[j],
{
    let (nonce, q) = w.net.addr_queries[i];
    if query_due(q, now) {
        let a = World {
            net: NetState {
                addr_queries: w.net.addr_queries.update(i, (nonce, query_bumped(q, now))),
                ..w.net
            },
            ..w
        };
        let inner = addr_query_bytes(q.target, nonce, 0);
        let to = sealable(unanswered(q.asked, q.answered), inner.len());
        let packets = choose|packets: Seq<Seq<u8>>|
            are_sealed_for(a.net.me, PktType::AddrQuery, 0, to, inner, packets) && w2
                == #[trigger] peers_sent(a, to, packets);
        lemma_round_calm(a, to, packets);
    }
}

pub proof fn lemma_repeats_frame(w: World, steps: Seq<World>, now: u64, n: int)
    requires
        steps.len() == w.net.addr_queries.len() + 1,
        steps[0] == w,
        forall|i: int| 0 <= i < w.net.addr_queries.len() ==> #[trigger] repeats_at(steps, i, now),
        0 <= n < steps.len(),
    ensures
        ({
            let r = steps[n];
            &&& calmly_continues(w.out, r.out)
            &&& r.net == (NetState { addr_queries: r.net.addr_queries, ..w.net })
            &&& r == (World { net: r.net, out: r.out, ..w })
            &&& r.net.addr_queries.len() == w.net.addr_queries.len()
            &&& forall|j: int|
                n <= j < w.net.addr_queries.len() ==> r.net.addr_queries[j]
                    == #[trigger] w.net.addr_queries[j]
        }),
    decreases n,
{
    if n > 0 {
        lemma_repeats_frame(w, steps, now, n - 1);
        assert(repeats_at(steps, n - 1, now));
        lemma_repeat_one(steps[n - 1], steps[n], n - 1, now);
        lemma_calm_trans(w.out, steps[n - 1].out, steps[n].out);
    }
}

pub proof fn lemma_repeated_probes(w: World, probes: Seq<(Seq<u8>, ProbeView)>, now: u64)
    ensures
        ({
            let r = probes_repeated(w, probes, now);
            &&& calmly_continues(w.out, r.out)
            &&& r == (World { out: r.out, ..w })
            &&& forall|i: int|
                0 <= i < probes.len() && now >= (#[trigger] probes[i]).1.next_try
                    && probes[i].1.attempts < 2 ==> reaches(
                    w,
                    r.out,
                    probes[i].0,
                    probes[i].1.bytes,
                )
        }),
    decreases probes.len(),
{
    if probes.len() > 0 {
        let t = probes.drop_last();
        lemma_repeated_probes(w, t, now);
        let f = probes_repeated(w, t, now);
        let r = probes_repeated(w, probes, now);
        let (peer, p) = probes.last();
        lemma_sent_calm(f, peer, p.bytes);
        assert(calmly_continues(f.out, r.out));
        lemma_calm_trans(w.out, f.out, r.out);
        law_sent_to_friend(f, peer, p.bytes);
        assert forall|i: int|
            0 <= i < probes.len() && now >= (#[trigger] probes[i]).1.next_try
                && probes[i].1.attempts < 2 implies reaches(
            w,
            r.out,
            probes[i].0,
            probes[i].1.bytes,
        ) by {
            if i < t.len() {
                assert(t[i] == probes[i]);
                lemma_reaches_later(w, w, f.out, r.out, t[i].0, t[i].1.bytes);
            } else {
                lemma_reaches_later(w, f, r.out, r.out, peer, p.bytes);
            }
        }
    }
}

/// What giving up on one probe does.
pub proof fn lemma_gossip_frame(w: World, w2: World, victim: Seq<u8>, local: LocalIps)
    requires
        gossips(w, w2, victim, local),
    ensures
        calmly_continues(w.out, w2.out),
        w2 == (World { out: w2.out, ..w }),
{
    let inner = gossip_bytes(seq![victim], announces(w.net, local));
    let peers = sealable(keys_but(friend_keys(w.book), victim), inner.len());
    let packets = choose|packets: Seq<Seq<u8>>|
        are_sealed_for(w.net.me, PktType::Gossip, FLAG_EPHEMERAL, peers, inner, packets) && w2
            == #[trigger] peers_sent(w, peers, packets);
    lemma_round_calm(w, peers, packets);
}

pub proof fn lemma_give_up_frame(
    w: World,
    over: Seq<(Seq<u8>, ProbeView)>,
    steps: Seq<World>,
    local: LocalIps,
    n: int,
)
    requires
        steps.len() == over.len() + 1,
        steps[0] == w,
        forall|i: int| 0 <= i < over.len() ==> #[trigger] gives_up_at(steps, over, i, local),
        0 <= n < steps.len(),
    ensures
        ({
            let r = steps[n];
            &&& calmly_continues(w.out, r.out)
            &&& r.net == (NetState {
                ip_probes: r.net.ip_probes,
                pending_announce: r.net.pending_announce,
                ..w.net
            })
            &&& r == (World { net: r.net, out: r.out, ..w })
        }),
    decreases n,
{
    if n > 0 {
        lemma_give_up_frame(w, over, steps, local, n - 1);
        assert(gives_up_at(steps, over, n - 1, local));
        let a = steps[n - 1];
        let (victim, p) = over[n - 1];
        let b = probe_given_up(a, victim, p);
        assert(calmly_continues(a.out, b.out));
        lemma_gossip_frame(b, steps[n], victim, local);
        lemma_calm_trans(a.out, b.out, steps[n].out);
        lemma_calm_trans(w.out, a.out, steps[n].out);
    }
}

proof fn lemma_probes_frame(w: World, w2: World, now: u64, local: LocalIps)
    requires
        polls_probes(w, w2, now, local),
    ensures
        calmly_continues(w.out, w2.out),
        w2.net == (NetState {
            ip_probes: w2.net.ip_probes,
            pending_announce: w2.net.pending_announce,
            ..w.net
        }),
        w2 == (World { net: w2.net, out: w2.out, ..w }),
{
    let a = probes_polled(w, now);
    let over = probes_over(w.net.ip_probes, now);
    let steps = choose|steps: Seq<World>| #[trigger] gives_up_by(a, w2, over, steps, local);
    lemma_repeated_probes(w, w.net.ip_probes, now);
    lemma_give_up_frame(a, over, steps, local, over.len() as int);
    lemma_calm_trans(w.out, a.out, w2.out);
}

/// What delivering pushes to someone does.
pub proof fn lemma_delivery_frame(w: World, w2: World, victim: Seq<u8>, now: u64)
    requires
        delivers_pushes(w, w2, victim, now),
    ensures
        calmly_continues(w.out, w2.out),
        w2.net == (NetState { pending_pushes: w2.net.pending_pushes, ..w.net }),
        w2 == (World { net: w2.net, out: w2.out, ..w }),
{
    let packets = choose|packets: Seq<Seq<u8>>|
        are_push_packets(w.net.me, victim, pushes_for(w.net, victim), packets, now) && w2
            == #[trigger] delivered(w, victim, packets, now);
    match lookup(w.net.pending_pushes, victim) {
        Some(list) => {
            lemma_pushes_round(w, victim, list, packets, now);
        },
        None => {},
    }
}

/// Every push that is due reaches the one it is for.
pub proof fn lemma_pushes_round(
    w: World,
    victim: Seq<u8>,
    list: Seq<PushView>,
    packets: Seq<Seq<u8>>,
    now: u64,
)
    ensures
        ({
            let r = pushes_sent(w, victim, list, packets, now);
            &&& calmly_continues(w.out, r.out)
            &&& r == (World { out: r.out, ..w })
            &&& forall|i: int|
                0 <= i < packets.len() && push_due(list[i], victim, now) ==> reaches(
                    w,
                    r.out,
                    victim,
                    #[trigger] packets[i],
                )
        }),
    decreases packets.len(),
{
    if packets.len() > 0 {
        let t = packets.drop_last();
        lemma_pushes_round(w, victim, list, t, now);
        let f = pushes_sent(w, victim, list, t, now);
        let r = pushes_sent(w, victim, list, packets, now);
        lemma_sent_calm(f, victim, packets.last());
        assert(calmly_continues(f.out, r.out));
        lemma_calm_trans(w.out, f.out, r.out);
        law_sent_to_friend(f, victim, packets.last());
        assert forall|i: int|
            0 <= i < packets.len() && push_due(list[i], victim, now) implies reaches(
            w,
            r.out,
            victim,
            #[trigger] packets[i],
        ) by {
            if i < t.len() {
                assert(t[i] == packets[i]);
                lemma_reaches_later(w, w, f.out, r.out, victim, t[i]);
            } else {
                lemma_reaches_later(w, f, r.out, r.out, victim, packets[i]);
            }
        }
    }
}

pub proof fn lemma_pushes_frame(
    w: World,
    victims: Seq<Seq<u8>>,
    steps: Seq<World>,
    now: u64,
    n: int,
)
    requires
        steps.len() == victims.len() + 1,
        steps[0] == w,
        forall|i: int|
            #![trigger victims[i]]
            0 <= i < victims.len() ==> polls_pushes_for(steps[i], steps[i + 1], victims[i], now),
        0 <= n < steps.len(),
    ensures
        ({
            let r = steps[n];
            &&& calmly_continues(w.out, r.out)
            &&& r.net == (NetState { pending_pushes: r.net.pending_pushes, ..w.net })
            &&& r == (World { net: r.net, out: r.out, ..w })
        }),
    decreases n,
{
    if n > 0 {
        lemma_pushes_frame(w, victims, steps, now, n - 1);
        let a = steps[n - 1];
        let v = victims[n - 1];
        let b = choose|b: World| #[trigger]
            delivers_pushes(a, b, v, now) && steps[n] == (World {
                net: pushes_pruned(b.net, v),
                ..b
            });
        lemma_delivery_frame(a, b, v, now);
        lemma_calm_trans(w.out, a.out, steps[n].out);
    }
}

/// What an announcement to all friends does.
pub proof fn lemma_announce_frame(w: World, w2: World, local: LocalIps, now: u64)
    requires
        announces_ips(w, w2, local, now),
    ensures
        calmly_continues(w.out, w2.out),
        w2.net == (NetState { ip_probes: w2.net.ip_probes, ..w.net }),
        w2 == (World { net: w2.net, out: w2.out, ..w }),
{
    let ips = announces(w.net, local);
    if ips.len() > 0 {
        let (probe_id, packets) = choose|probe_id: u64, packets: Seq<Seq<u8>>| #[trigger]
            are_probes(w, ips, probe_id, packets) && w2 == probes_sent(
                w,
                probed(w, ips, probe_id),
                packets,
                probe_id,
                now,
            );
        let peers = probed(w, ips, probe_id);
        let s = peers_sent(w, peers, packets);
        lemma_round_calm(w, peers, packets);
        assert(calmly_continues(s.out, w2.out));
        lemma_calm_trans(w.out, s.out, w2.out);
    }
}

/// The worlds between the parts of a turn: after the packets without an
/// acknowledgement, the queries, the probes, the pushes and the check of our
/// own address.
pub struct Turn {
    pub sent: World,
    pub asked: World,
    pub probed: World,
    pub pushed: World,
    pub checked: World,
}

/// The parts of a turn, and what each of them leaves alone.
pub open spec fn is_turn(w: World, w2: World, now: u64, local: LocalIps, t: Turn) -> bool {
    &&& t.sent == retransmitted(w, now)
    &&& repeats_queries(queries_checked(t.sent, now), t.asked, now)
    &&& polls_probes(t.asked, t.probed, now, local)
    &&& polls_pushes(t.probed, t.pushed, now)
    &&& checks_address(t.pushed, t.checked, now, local)
    &&& continues(w.out, t.sent.out)
    &&& calmly_continues(t.sent.out, t.asked.out)
    &&& calmly_continues(t.asked.out, t.probed.out)
    &&& calmly_continues(t.probed.out, t.pushed.out)
    &&& calmly_continues(t.pushed.out, w2.out)
    &&& t.sent.net == (NetState {
        retx: w2.net.retx,
        failed_sends: w2.net.failed_sends,
        chunk_seqs: w2.net.chunk_seqs,
        attach_sends: w2.net.attach_sends,
        ..w.net
    })
    &&& t.asked.net == (NetState { addr_queries: w2.net.addr_queries, ..t.sent.net })
    &&& t.probed.net == (NetState {
        ip_probes: t.probed.net.ip_probes,
        pending_announce: w2.net.pending_announce,
        ..t.asked.net
    })
    &&& t.pushed.net == (NetState { pending_pushes: w2.net.pending_pushes, ..t.probed.net })
    &&& w2.net == (NetState {
        next_local_ip_check: w2.net.next_local_ip_check,
        last_local_ipv6: w2.net.last_local_ipv6,
        ip_probes: w2.net.ip_probes,
        attach_recvs: recvs_kept(w.net.attach_recvs, now),
        ..t.pushed.net
    })
    &&& t.sent.book == w.book && t.asked.book == w.book && t.probed.book == w.book && t.pushed.book
        == w.book && t.checked.book == w.book
    &&& t.checked.net == (NetState { attach_recvs: w.net.attach_recvs, ..w2.net })
    &&& t.checked.out == w2.out
    &&& w2.book == w.book
    &&& w2.unsaved == w.unsaved
}

#[verifier::rlimit(40)]
pub proof fn lemma_turn(w: World, w2: World, now: u64, local: LocalIps) -> (t: Turn)
    requires
        ticks(w, w2, now, local),
    ensures
        is_turn(w, w2, now, local, t),
{
    let x = retransmitted(w, now);
    let y = queries_checked(x, now);
    let (a, b, c, d) = choose|a: World, b: World, c: World, d: World|
        repeats_queries(queries_checked(retransmitted(w, now), now), a, now)
            && #[trigger] polls_probes(a, b, now, local) && #[trigger] polls_pushes(b, c, now)
            && #[trigger] checks_address(c, d, now, local) && w2 == (World {
            net: NetState { attach_recvs: recvs_kept(d.net.attach_recvs, now), ..d.net },
            ..d
        });
    let waiting = World { net: NetState { retx: still_waiting(w.net.retx, now), ..w.net }, ..w };
    let again = resends_sent(waiting, resends(w.net.retx, now));
    lemma_resends_sent(waiting, resends(w.net.retx, now));
    lemma_given_up_frame(again, failures(w.net.retx, now));
    lemma_continues_trans(w.out, again.out, x.out);
    lemma_expiry_calm(x.out, x.net.addr_queries, now);
    let qs = choose|qs: Seq<World>| #[trigger] repeats_by(y, a, qs, now);
    lemma_repeats_frame(y, qs, now, qs.len() - 1);
    lemma_calm_trans(x.out, y.out, a.out);
    lemma_probes_frame(a, b, now, local);
    let victims = table_keys(b.net.pending_pushes);
    let ps = choose|ps: Seq<World>| #[trigger] polls_pushes_by(b, c, victims, ps, now);
    lemma_pushes_frame(b, victims, ps, now, ps.len() - 1);
    let e = World { net: address_checked(c.net, now, local), ..c };
    if address_changed(c.net, now, local) {
        lemma_announce_frame(e, d, local, now);
    }
    Turn { sent: x, asked: a, probed: b, pushed: c, checked: d }
}

// ---------- laws of retransmission ----------

/// Each packet that is due and was repeated less than three times goes out
/// again, with the same bytes, to every address of the one it is for.
pub proof fn law_due_packets_go_out(w: World, w2: World, now: u64, local: LocalIps, i: int)
    requires
        ticks(w, w2, now, local),
        0 <= i < w.net.retx.len(),
        now >= w.net.retx[i].1.next_retry,
        w.net.retx[i].1.attempts < 3,
    ensures
        reaches(w, w2.out, w.net.retx[i].1.recipient, w.net.retx[i].1.bytes),
{
    let t = lemma_turn(w, w2, now, local);
    let p = w.net.retx[i].1;
    let waiting = World { net: NetState { retx: still_waiting(w.net.retx, now), ..w.net }, ..w };
    let list = resends(w.net.retx, now);
    let again = resends_sent(waiting, list);
    lemma_resends_sent(waiting, list);
    lemma_given_up_frame(again, failures(w.net.retx, now));
    lemma_polled(w.net.retx, now, i);
    let j = choose|j: int|
        0 <= j < list.len() && (#[trigger] list[j]).recipient == p.recipient && list[j].bytes
            == p.bytes;
    assert(reaches(waiting, again.out, list[j].recipient, list[j].bytes));
    lemma_continues_trans(again.out, t.sent.out, t.asked.out);
    lemma_continues_trans(again.out, t.asked.out, t.probed.out);
    lemma_continues_trans(again.out, t.probed.out, t.pushed.out);
    lemma_continues_trans(again.out, t.pushed.out, w2.out);
    lemma_reaches_later(w, waiting, again.out, w2.out, p.recipient, p.bytes);
}

/// A message that is not yet due waits on; one that is due waits again, counted
/// once more and for two seconds; one that was repeated three times is given
/// up, reported as failed and kept, and nothing else is reported as failed.
pub proof fn law_messages_after_turn(
    w: World,
    w2: World,
    now: u64,
    local: LocalIps,
    k: (Seq<u8>, u32),
)
    requires
        ticks(w, w2, now, local),
        distinct_keys(w.net.retx),
        no_chunk(w.net.chunk_seqs, k),
    ensures
        ({
            let lost = OutView::Event(EventView::MessageFailed { peer: k.0, seq: k.1 });
            let given_up = lookup(w.net.retx, k) is Some && now >= lookup(
                w.net.retx,
                k,
            )->0.next_retry && lookup(w.net.retx, k)->0.attempts >= 3;
            &&& appears(w2.out, w.out.len() as int, lost) == given_up
            &&& lookup(w2.net.failed_sends, k) == if given_up {
                Some(lookup(w.net.retx, k)->0.bytes)
            } else {
                lookup(w.net.failed_sends, k)
            }
            &&& match lookup(w.net.retx, k) {
                None => lookup(w2.net.retx, k) is None,
                Some(p) => if given_up {
                    lookup(w2.net.retx, k) is None
                } else if now < p.next_retry {
                    lookup(w2.net.retx, k) == Some(p)
                } else {
                    lookup(w2.net.retx, k) == Some(
                        PendingView {
                            attempts: (p.attempts + 1) as u32,
                            next_retry: if now + 2000 <= u64::MAX {
                                (now + 2000) as u64
                            } else {
                                u64::MAX
                            },
                            ..p
                        },
                    )
                },
            }
        }),
{
    let t = lemma_turn(w, w2, now, local);
    let lost = OutView::Event(EventView::MessageFailed { peer: k.0, seq: k.1 });
    let n = w.out.len() as int;
    let s = w.net.retx;
    let waiting = World { net: NetState { retx: still_waiting(s, now), ..w.net }, ..w };
    let again = resends_sent(waiting, resends(s, now));
    let failed = failures(s, now);
    lemma_key_index(s, k);
    lemma_still_waiting(s, now, k);
    lemma_resends_calm(waiting, resends(s, now));
    lemma_failures_distinct(s, now);
    lemma_given_up_message(again, failed, k);
    lemma_given_up_frame(again, failed);
    lemma_calm_trans(t.sent.out, t.asked.out, t.probed.out);
    lemma_calm_trans(t.sent.out, t.probed.out, t.pushed.out);
    lemma_calm_trans(t.sent.out, t.pushed.out, w2.out);
    let given_up = lookup(s, k) is Some && now >= lookup(s, k)->0.next_retry && lookup(
        s,
        k,
    )->0.attempts >= 3;
    if given_up {
        let i = lemma_failure_of(s, now, key_index(s, k));
        assert(failed[i].recipient == k.0 && failed[i].seq == k.1);
        lemma_appears_earlier(t.sent.out, n, again.out.len() as int, lost);
        lemma_appears_later(t.sent.out, w2.out, n, lost);
    } else {
        assert forall|i: int| 0 <= i < failed.len() implies !((#[trigger] failed[i]).recipient
            == k.0 && failed[i].seq == k.1) by {
            let m = lemma_failure_from(s, now, i);
            if failed[i].recipient == k.0 && failed[i].seq == k.1 {
                lemma_key_index_is(s, k, m);
            }
        }
        if appears(w2.out, n, lost) {
            let j = choose|j: int| n <= j < w2.out.len() && #[trigger] w2.out[j] == lost;
            if j < t.sent.out.len() {
                assert(t.sent.out[j] == lost);
                if j < again.out.len() {
                    assert(again.out[j] == lost);
                }
            }
            assert(false);
        }
    }
}

proof fn lemma_resends_calm(w: World, again: Seq<PendingView>)
    ensures
        calmly_continues(w.out, resends_sent(w, again).out),
        resends_sent(w, again) == (World { out: resends_sent(w, again).out, ..w }),
    decreases again.len(),
{
    if again.len() > 0 {
        let t = again.drop_last();
        lemma_resends_calm(w, t);
        let f = resends_sent(w, t);
        lemma_sent_calm(f, again.last().recipient, again.last().bytes);
        lemma_calm_trans(w.out, f.out, resends_sent(w, again).out);
    }
}

} // verus!
