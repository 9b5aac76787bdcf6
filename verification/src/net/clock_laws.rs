//! What else a turn of the clock does: half-received attachments are dropped
//! after a while, our own address is watched, and nothing goes out that is not
//! due.

use vstd::prelude::*;

use crate::net::announce::{address_checked, announces, opt_ip, watched_ipv6, LocalIps};
use crate::net::announce_laws::{all_probed, law_announcement_goes_out, probed_if_friend};
use crate::net::attach::recvs_kept;
use crate::net::driver::{
    all_given_up, belongs, carry_chunk, is_deadline, own_chunk, resends_sent, retransmitted, ticks,
};
use crate::net::event::{EventView, OutView};
use crate::net::fail_laws::{law_transfer_ends, times};
use crate::net::ip::{ip_text, AddrView};
use crate::net::node::{
    family_addrs, parsed_list, peer_addrs, sends, AttachRecvView, ChunkRefView, NetState, World,
};
use crate::net::retransmit::{failures, resends, still_waiting, Waiting};
use crate::net::route_laws::{
    appears, continues, lemma_appears_earlier, lemma_appears_later, lemma_continues_trans,
};
use crate::net::socket::{parsed_addr, reachable};
use crate::net::tick_laws::{lemma_failure_of, lemma_given_up_frame, lemma_resends_sent, lemma_turn};
use crate::store::friends::{friend_of, FriendView};
use crate::table::{distinct_keys, has_key, key_index, lemma_key_index, lemma_lookup_push, lookup};

verus! {

// ---------- attachments that come in ----------

proof fn lemma_recvs_kept(recvs: Seq<(Seq<u8>, AttachRecvView)>, now: u64, k: Seq<u8>)
    requires
        distinct_keys(recvs),
    ensures
        forall|i: int|
            0 <= i < recvs_kept(recvs, now).len() ==> has_key(
                recvs,
                (#[trigger] recvs_kept(recvs, now)[i]).0,
            ),
        lookup(recvs_kept(recvs, now), k) == match lookup(recvs, k) {
            Some(r) => if now - r.updated < 120_000 {
                Some(r)
            } else {
                None
            },
            None => None,
        },
    decreases recvs.len(),
{
    if recvs.len() > 0 {
        let t = recvs.drop_last();
        let (lk, lr) = recvs.last();
        let f = recvs_kept(t, now);
        let r = recvs_kept(recvs, now);
        assert forall|i: int, j: int| 0 <= i < j < t.len() implies (#[trigger] t[i]).0 != (
        #[trigger] t[j]).0 by {
            assert(recvs[i] == t[i] && recvs[j] == t[j]);
        }
        lemma_recvs_kept(t, now, k);
        lemma_key_index(t, lk);
        assert(!has_key(t, lk)) by {
            if has_key(t, lk) {
                let j = key_index(t, lk);
                assert(recvs[j].0 != recvs[recvs.len() - 1].0);
            }
        }
        assert(t.push(recvs.last()) =~= recvs);
        assert forall|i: int| 0 <= i < r.len() implies has_key(recvs, (#[trigger] r[i]).0) by {
            lemma_lookup_push(t, recvs.last(), r[i].0);
            if i < f.len() {
                assert(r[i] == f[i]);
            }
        }
        lemma_lookup_push(t, recvs.last(), k);
        lemma_lookup_push(f, recvs.last(), k);
        lemma_key_index(f, k);
        if k == lk && has_key(f, k) {
            assert(has_key(t, f[key_index(f, k)].0));
        }
    }
}

/// A half-received attachment is kept as it is for two minutes after its last
/// chunk, and then dropped.
pub proof fn law_half_received_expire(
    w: World,
    w2: World,
    now: u64,
    local: LocalIps,
    transfer: Seq<u8>,
)
    requires
        ticks(w, w2, now, local),
        distinct_keys(w.net.attach_recvs),
    ensures
        lookup(w2.net.attach_recvs, transfer) == match lookup(w.net.attach_recvs, transfer) {
            Some(r) => if now < r.updated + 120_000 {
                Some(r)
            } else {
                None
            },
            None => None,
        },
{
    let t = lemma_turn(w, w2, now, local);
    lemma_recvs_kept(w.net.attach_recvs, now, transfer);
}

// ---------- our own address ----------

/// Without a stable address our IPv6 address is looked at every thirty seconds
/// and remembered if it is reachable. When it has changed, our addresses are
/// announced to every friend.
pub proof fn law_address_is_watched(w: World, w2: World, now: u64, local: LocalIps)
    requires
        ticks(w, w2, now, local),
    ensures
        ({
            let due = w.net.stable_ipv4 is None && now >= w.net.next_local_ip_check;
            let found = match opt_ip(local.ipv6) {
                Some(a) => if reachable(a) {
                    Some(ip_text(a))
                } else {
                    None
                },
                None => None,
            };
            let ips = announces(w.net, local);
            &&& !due ==> w2.net.next_local_ip_check == w.net.next_local_ip_check
                && w2.net.last_local_ipv6 == w.net.last_local_ipv6
            &&& due ==> {
                &&& w2.net.last_local_ipv6 == found
                &&& w2.net.next_local_ip_check as int == if now + 30_000 <= u64::MAX {
                    now + 30_000
                } else {
                    u64::MAX as int
                }
                &&& w.net.last_local_ipv6 != found && ips.len() > 0 ==> exists|
                    from: World,
                    probe_id: u64,
                |
                    from.book == w.book && from.net.me == w.net.me && continues(
                        w.out,
                        from.out,
                    ) && #[trigger] all_probed(from, w2, probe_id, ips, now)
            }
        }),
{
    let t = lemma_turn(w, w2, now, local);
    let due = w.net.stable_ipv4 is None && now >= w.net.next_local_ip_check;
    let found = watched_ipv6(opt_ip(local.ipv6));
    let ips = announces(w.net, local);
    let from = World {
        net: address_checked(t.pushed.net, now, local),
        ..t.pushed
    };
    if due && w.net.last_local_ipv6 != found {
        law_announcement_goes_out(from, t.checked, local, now);
        if ips.len() > 0 {
            lemma_continues_trans(w.out, t.sent.out, t.asked.out);
            lemma_continues_trans(w.out, t.asked.out, t.probed.out);
            lemma_continues_trans(w.out, t.probed.out, t.pushed.out);
            let probe_id = choose|probe_id: u64| #[trigger]
                all_probed(from, t.checked, probe_id, ips, now);
            lemma_probed_in(from, t.checked, w2, probe_id, ips, now);
        }
    }
}

proof fn lemma_probed_in(
    w: World,
    a: World,
    b: World,
    probe_id: u64,
    ips: Seq<Seq<char>>,
    now: u64,
)
    requires
        all_probed(w, a, probe_id, ips, now),
        b.net.ip_probes == a.net.ip_probes,
        b.out == a.out,
    ensures
        all_probed(w, b, probe_id, ips, now),
{
    assert forall|k: Seq<u8>| #[trigger]
        probed_if_friend(w, b, k, probe_id, ips, now) by {
        assert(probed_if_friend(w, a, k, probe_id, ips, now));
    }
}

// ---------- once each ----------

/// How many datagrams there are among outputs.
pub open spec fn datagrams(out: Seq<OutView>) -> nat
    decreases out.len(),
{
    if out.len() == 0 {
        0
    } else {
        datagrams(out.drop_last()) + if out.last() is Send {
            1nat
        } else {
            0nat
        }
    }
}

/// How many of the texts recorded for someone are addresses.
pub open spec fn address_count(ips: Seq<Seq<char>>) -> nat
    decreases ips.len(),
{
    if ips.len() == 0 {
        0
    } else {
        address_count(ips.drop_last()) + if parsed_addr(ips.last(), 1212) is Some {
            1nat
        } else {
            0nat
        }
    }
}

/// How many addresses someone has.
pub open spec fn addresses_of(book: Seq<FriendView>, id: Seq<u8>) -> nat {
    match friend_of(book, id) {
        Some(f) => address_count(f.ips),
        None => 0,
    }
}

/// How many datagrams the packets that are due make: one for each address of
/// the one a packet is for.
pub open spec fn due_datagrams(book: Seq<FriendView>, s: Waiting, now: u64) -> nat
    decreases s.len(),
{
    if s.len() == 0 {
        0
    } else {
        let p = s.last().1;
        due_datagrams(book, s.drop_last(), now) + if now >= p.next_retry && p.attempts < 3 {
            addresses_of(book, p.recipient)
        } else {
            0nat
        }
    }
}

proof fn lemma_family_count(v: Seq<AddrView>)
    ensures
        family_addrs(v, true).len() + family_addrs(v, false).len() == v.len(),
    decreases v.len(),
{
    if v.len() > 0 {
        lemma_family_count(v.drop_last());
    }
}

proof fn lemma_parsed_count(ips: Seq<Seq<char>>)
    ensures
        parsed_list(ips).len() == address_count(ips),
    decreases ips.len(),
{
    if ips.len() > 0 {
        lemma_parsed_count(ips.drop_last());
    }
}

/// A packet to someone goes to as many places as that one has addresses: to
/// each once.
pub proof fn law_each_address_once(book: Seq<FriendView>, id: Seq<u8>)
    ensures
        peer_addrs(book, id).len() == addresses_of(book, id),
{
    match friend_of(book, id) {
        Some(f) => {
            lemma_family_count(parsed_list(f.ips));
            lemma_parsed_count(f.ips);
        },
        None => {},
    }
}

proof fn lemma_datagrams_added(out: Seq<OutView>, more: Seq<OutView>)
    requires
        forall|i: int| 0 <= i < more.len() ==> #[trigger] more[i] is Send,
    ensures
        datagrams(out + more) == datagrams(out) + more.len(),
    decreases more.len(),
{
    if more.len() == 0 {
        assert(out + more =~= out);
    } else {
        let t = more.drop_last();
        assert forall|i: int| 0 <= i < t.len() implies #[trigger] t[i] is Send by {
            assert(more[i] == t[i]);
        }
        lemma_datagrams_added(out, t);
        assert((out + more).drop_last() =~= out + t);
        assert(more[more.len() - 1] is Send);
    }
}

proof fn lemma_datagrams_kept(a: Seq<OutView>, b: Seq<OutView>)
    requires
        continues(a, b),
        forall|k: int| a.len() <= k < b.len() ==> #[trigger] b[k] is Event,
    ensures
        datagrams(b) == datagrams(a),
    decreases b.len(),
{
    if b.len() == a.len() {
        assert(a =~= b);
    } else {
        let t = b.drop_last();
        assert forall|i: int| 0 <= i < a.len() implies #[trigger] t[i] == a[i] by {
            assert(b[i] == a[i]);
        }
        assert forall|k: int| a.len() <= k < t.len() implies #[trigger] t[k] is Event by {
            assert(b[k] == t[k]);
        }
        lemma_datagrams_kept(a, t);
        assert(b[b.len() - 1] is Event);
    }
}

proof fn lemma_resends_counted(w: World, s: Waiting, now: u64)
    ensures
        datagrams(resends_sent(w, resends(s, now)).out) == datagrams(w.out) + due_datagrams(
            w.book,
            s,
            now,
        ),
    decreases s.len(),
{
    if s.len() > 0 {
        let t = s.drop_last();
        let p = s.last().1;
        lemma_resends_counted(w, t, now);
        if now >= p.next_retry && p.attempts < 3 {
            let again = resends(s, now);
            let f = resends_sent(w, resends(t, now));
            lemma_resends_sent(w, resends(t, now));
            assert(again.drop_last() =~= resends(t, now));
            law_each_address_once(w.book, p.recipient);
            let all = resends_sent(w, again);
            let more = sends(w.net.use_v6, peer_addrs(w.book, p.recipient), p.bytes);
            assert(all.out =~= f.out + more);
            lemma_datagrams_added(f.out, more);
        }
    }
}

/// Retransmission sends each packet that is due once to each address of the
/// one it is for, and no other datagram.
pub proof fn law_resends_once(w: World, now: u64)
    ensures
        datagrams(retransmitted(w, now).out) == datagrams(w.out) + due_datagrams(
            w.book,
            w.net.retx,
            now,
        ),
{
    let waiting = World { net: NetState { retx: still_waiting(w.net.retx, now), ..w.net }, ..w };
    let again = resends_sent(waiting, resends(w.net.retx, now));
    lemma_resends_counted(waiting, w.net.retx, now);
    lemma_given_up_frame(again, failures(w.net.retx, now));
    lemma_datagrams_kept(again.out, retransmitted(w, now).out);
}

// ---------- lost chunks ----------

/// A chunk that was repeated three times ends its transfer: that is reported
/// as failed, none of its chunks waits any longer, and it is forgotten.
pub proof fn law_lost_chunk_ends_transfer(
    w: World,
    w2: World,
    now: u64,
    local: LocalIps,
    k: (Seq<u8>, u32),
    c: ChunkRefView,
    seq: u32,
)
    requires
        ticks(w, w2, now, local),
        lookup(w.net.retx, k) matches Some(p) && now >= p.next_retry && p.attempts >= 3,
        lookup(w.net.chunk_seqs, k.1) == Some(c),
        c.recipient == k.0,
        lookup(w.net.chunk_seqs, seq) matches Some(d) && d.recipient == c.recipient && d.transfer
            == c.transfer,
    ensures
        appears(
            w2.out,
            w.out.len() as int,
            OutView::Event(
                EventView::AttachFailed { peer: c.recipient, transfer: c.transfer },
            ),
        ),
        !has_key(w2.net.attach_sends, c.transfer),
        !has_key(w2.net.retx, (c.recipient, seq)),
        forall|i: int|
            0 <= i < w2.net.chunk_seqs.len() ==> !((#[trigger] w2.net.chunk_seqs[i]).1.recipient
                == c.recipient && w2.net.chunk_seqs[i].1.transfer == c.transfer),
{
    let t = lemma_turn(w, w2, now, local);
    let s = w.net.retx;
    let waiting = World { net: NetState { retx: still_waiting(s, now), ..w.net }, ..w };
    let again = resends_sent(waiting, resends(s, now));
    let failed = failures(s, now);
    lemma_resends_sent(waiting, resends(s, now));
    lemma_key_index(s, k);
    let i = lemma_failure_of(s, now, key_index(s, k));
    assert(belongs(own_chunk(w.net.chunk_seqs, failed[i]), c.recipient, c.transfer));
    assert(carry_chunk(again.net.chunk_seqs, failed, c.recipient, c.transfer));
    law_transfer_ends(again, failed, c.recipient, c.transfer, seq);
    let e = OutView::Event(EventView::AttachFailed { peer: c.recipient, transfer: c.transfer });
    let r = all_given_up(again, failed);
    lemma_more_times(again.out, r.out, e);
    lemma_continues_trans(t.sent.out, t.asked.out, t.probed.out);
    lemma_continues_trans(t.sent.out, t.probed.out, t.pushed.out);
    lemma_continues_trans(t.sent.out, t.pushed.out, w2.out);
    lemma_appears_earlier(r.out, w.out.len() as int, again.out.len() as int, e);
    lemma_appears_later(r.out, w2.out, w.out.len() as int, e);
}

/// What occurs more often in a longer text occurs in what was added.
proof fn lemma_more_times(a: Seq<OutView>, b: Seq<OutView>, e: OutView)
    requires
        a.is_prefix_of(b),
        times(b, e) > times(a, e),
    ensures
        appears(b, a.len() as int, e),
    decreases b.len(),
{
    if b.len() == a.len() {
        assert(a =~= b);
    } else {
        let t = b.drop_last();
        if b.last() == e {
            assert(b[b.len() - 1] == e);
        } else {
            assert(a.is_prefix_of(t));
            lemma_more_times(a, t, e);
            let k = choose|k: int| a.len() <= k < t.len() && #[trigger] t[k] == e;
            assert(b[k] == e);
        }
    }
}

// ---------- when to wake up ----------

/// Whatever waits makes a deadline: a packet at its next repeat, a query at its
/// next repeat and at its end, a probe and an entrusted announcement at their
/// next try, and the watch over our own address at its next look.
pub proof fn law_deadlines(n: NetState, now: u64, i: int, j: int)
    ensures
        is_deadline(n, now, n.next_local_ip_check),
        0 <= i < n.retx.len() && n.retx[i].1.next_retry > now ==> is_deadline(
            n,
            now,
            n.retx[i].1.next_retry,
        ),
        0 <= i < n.addr_queries.len() ==> is_deadline(n, now, n.addr_queries[i].1.next_retry),
        0 <= i < n.addr_queries.len() && n.addr_queries[i].1.started + 6000 <= u64::MAX
            ==> is_deadline(n, now, (n.addr_queries[i].1.started + 6000) as u64),
        0 <= i < n.ip_probes.len() ==> is_deadline(n, now, n.ip_probes[i].1.next_try),
        0 <= i < n.pending_pushes.len() && 0 <= j < n.pending_pushes[i].1.len() ==> is_deadline(
            n,
            now,
            n.pending_pushes[i].1[j].next_try,
        ),
{
}

} // verus!
