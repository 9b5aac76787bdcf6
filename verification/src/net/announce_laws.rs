//! How an announcement of our own address goes: every friend is told, again
//! and again until it confirms, and whoever does not is told through others.

use vstd::prelude::*;

use crate::bytes::be64;
use crate::net::announce::{
    announce_delivered, announced, announces, announces_ips, are_probes, confirmed, gives_up_at,
    gives_up_by, gossips, pinged, polls_probes, probe_given_up, probed, probes_bumped, probes_over,
    probes_polled, probes_sent, probes_set, started_up, unconfirmed_text, LocalIps,
};
use crate::net::driver::{accepted, follows_up, handles, packet_step, taken_for, ticks};
use crate::net::event::{EventView, Moment, OutView};
use crate::net::ip::{ip_port_text, AddrView, IpView};
use crate::net::laws::{lemma_extends_trans, quietly_extends};
use crate::net::node::{
    can_seal, is_sealed_packet, noted_seen, plain_packet, AnnounceView, Me, NetError, NetState,
    ProbeView, World,
};
use crate::net::packet::{PacketView, PktType, FLAG_EPHEMERAL};
use crate::net::pushes::delivers_pushes;
use crate::net::retransmit::after;
use crate::net::rounds::{are_sealed_for, friend_keys, keys_but, peers_sent, sealable};
use crate::net::route_laws::{
    appears, continues, law_sent_to_friend, lemma_appears_earlier, lemma_continues_trans,
    lemma_reaches_later, reaches, wire_form,
};
use crate::net::sending_laws::{
    is_friend_key, is_told, lemma_friend_keys, lemma_keys_but, lemma_push_contains,
    lemma_round_tells, lemma_sealable,
};
use crate::net::socket::reachable;
use crate::net::tick_laws::{
    lemma_give_up_frame, lemma_gossip_frame, lemma_repeated_probes, lemma_round, lemma_round_calm,
    lemma_turn,
};
use crate::net::traffic_laws::{lemma_noted, lemma_packet};
use crate::proto::addressing::{gossip_bytes, ip_changed_bytes, law_ip_changed_ack_round_trip};
use crate::table::{
    distinct_keys, has_key, key_index, law_table, lemma_key_index, lemma_key_index_is, lookup, put,
};
use crate::text::decimal;

verus! {

// ---------- what is announced ----------

/// A stable address is announced alone, with our port. Without one each local
/// address that counts as reachable is announced with our port, and nothing
/// else.
pub proof fn law_announced(
    stable: Option<Seq<char>>,
    port: u16,
    ip: Option<IpView>,
    ipv6: Option<IpView>,
    x: Seq<char>,
)
    ensures
        announced(stable, port, ip, ipv6).contains(x) <==> match stable {
            Some(s) => x == s + seq![':'] + decimal(port as nat),
            None => (ip matches Some(a) && reachable(a) && x == ip_port_text(a, port)) || (ipv6
                matches Some(a) && reachable(a) && x == ip_port_text(a, port)),
        },
        announced(stable, port, ip, ipv6).len() <= 2,
{
    let r = announced(stable, port, ip, ipv6);
    match stable {
        Some(s) => {
            assert(r[0] == s + seq![':'] + decimal(port as nat));
        },
        None => {
            match ip {
                Some(a) => {
                    if reachable(a) {
                        assert(r[0] == ip_port_text(a, port));
                    }
                },
                None => {},
            }
            match ipv6 {
                Some(a) => {
                    if reachable(a) {
                        assert(r[r.len() - 1] == ip_port_text(a, port));
                    }
                },
                None => {},
            }
        },
    }
}

// ---------- the announcement ----------

/// A probe as it waits for the first time: ten seconds.
pub open spec fn is_fresh_probe(
    o: Option<ProbeView>,
    probe_id: u64,
    bytes: Seq<u8>,
    now: u64,
) -> bool {
    &&& o matches Some(p)
    &&& p.probe_id == probe_id
    &&& p.bytes == bytes
    &&& p.attempts == 0
    &&& p.next_try as int == if now + 10_000 <= u64::MAX {
        now + 10_000
    } else {
        u64::MAX as int
    }
}

proof fn lemma_probes_set(
    probes: Seq<(Seq<u8>, ProbeView)>,
    peers: Seq<Seq<u8>>,
    packets: Seq<Seq<u8>>,
    probe_id: u64,
    now: u64,
    k: Seq<u8>,
)
    requires
        packets.len() <= peers.len(),
    ensures
        ({
            let r = probes_set(probes, peers, packets, probe_id, now);
            if exists|i: int| 0 <= i < packets.len() && #[trigger] peers[i] == k {
                exists|i: int|
                    0 <= i < packets.len() && #[trigger] peers[i] == k && is_fresh_probe(
                        lookup(r, k),
                        probe_id,
                        packets[i],
                        now,
                    )
            } else {
                lookup(r, k) == lookup(probes, k)
            }
        }),
    decreases packets.len(),
{
    if packets.len() > 0 {
        let t = packets.drop_last();
        let n = t.len() as int;
        lemma_probes_set(probes, peers, t, probe_id, now, k);
        let f = probes_set(probes, peers, t, probe_id, now);
        let p = ProbeView {
            bytes: packets.last(),
            probe_id,
            attempts: 0,
            next_try: after(now, 10_000),
        };
        let r = probes_set(probes, peers, packets, probe_id, now);
        assert(r == put(f, peers[n], p));
        if peers[n] == k {
            let other = k.push(0);
            assert(other.len() != k.len());
            law_table(f, k, p, other);
            assert(lookup(r, k) == Some(p));
        } else {
            law_table(f, peers[n], p, k);
            if exists|i: int| 0 <= i < t.len() && #[trigger] peers[i] == k {
                let i = choose|i: int|
                    0 <= i < t.len() && #[trigger] peers[i] == k && is_fresh_probe(
                        lookup(f, k),
                        probe_id,
                        t[i],
                        now,
                    );
                assert(t[i] == packets[i]);
                assert(peers[i] == k);
            }
        }
    }
}

/// Whether a friend has been told our addresses and has yet to confirm.
pub open spec fn is_probed(
    w: World,
    w2: World,
    k: Seq<u8>,
    probe_id: u64,
    ips: Seq<Seq<char>>,
    now: u64,
) -> bool {
    &&& lookup(w2.net.ip_probes, k) matches Some(p)
    &&& is_fresh_probe(Some(p), probe_id, p.bytes, now)
    &&& is_sealed_packet(
        w.net.me,
        PktType::IpChanged,
        FLAG_EPHEMERAL,
        0,
        k,
        ip_changed_bytes(probe_id, ips),
        p.bytes,
    )
    &&& reaches(w, w2.out, k, p.bytes)
}

/// Whether a friend is one that an announcement can be sealed for.
pub open spec fn can_tell(w: World, k: Seq<u8>, len: nat) -> bool {
    is_friend_key(w.book, k) && can_seal(k, len)
}

/// Whether every friend has been told and nobody else.
pub open spec fn all_probed(
    w: World,
    w2: World,
    probe_id: u64,
    ips: Seq<Seq<char>>,
    now: u64,
) -> bool {
    forall|k: Seq<u8>| #[trigger] probed_if_friend(w, w2, k, probe_id, ips, now)
}

/// Whether a friend has been told, and anyone else left alone.
pub open spec fn probed_if_friend(
    w: World,
    w2: World,
    k: Seq<u8>,
    probe_id: u64,
    ips: Seq<Seq<char>>,
    now: u64,
) -> bool {
    if can_tell(w, k, ip_changed_bytes(probe_id, ips).len()) {
        is_probed(w, w2, k, probe_id, ips, now)
    } else {
        lookup(w2.net.ip_probes, k) == lookup(w.net.ip_probes, k)
    }
}

/// Where there is something to announce, every friend is told at all of its
/// addresses under one number, and its confirmation is awaited; nobody else is
/// waited for anew.
pub proof fn law_announcement_goes_out(w: World, w2: World, local: LocalIps, now: u64)
    requires
        announces_ips(w, w2, local, now),
    ensures
        ({
            let ips = announces(w.net, local);
            if ips.len() == 0 {
                w2 == w
            } else {
                exists|probe_id: u64| #[trigger] all_probed(w, w2, probe_id, ips, now)
            }
        }),
        continues(w.out, w2.out),
        w2 == (World {
            out: w2.out,
            net: NetState { ip_probes: w2.net.ip_probes, ..w.net },
            ..w
        }),
{
    let ips = announces(w.net, local);
    if ips.len() > 0 {
        let (probe_id, packets) = choose|probe_id: u64, packets: Seq<Seq<u8>>| #[trigger]
            are_probes(w, ips, probe_id, packets) && w2 == probes_sent(
                w,
                probed(w, ips, probe_id),
                packets,
                probe_id,
                now,
            );
        lemma_probed_frame(w, probed(w, ips, probe_id), packets, probe_id, now);
        lemma_all_probed(w, w2, packets, probe_id, ips, now);
    }
}

proof fn lemma_all_probed(
    w: World,
    w2: World,
    packets: Seq<Seq<u8>>,
    probe_id: u64,
    ips: Seq<Seq<char>>,
    now: u64,
)
    requires
        are_probes(w, ips, probe_id, packets),
        w2 == probes_sent(w, probed(w, ips, probe_id), packets, probe_id, now),
    ensures
        all_probed(w, w2, probe_id, ips, now),
{
    assert forall|k: Seq<u8>| #[trigger] probed_if_friend(w, w2, k, probe_id, ips, now) by {
        lemma_probed_one(w, w2, packets, probe_id, ips, now, k);
    }
}

proof fn lemma_probed_frame(
    w: World,
    to: Seq<Seq<u8>>,
    packets: Seq<Seq<u8>>,
    probe_id: u64,
    now: u64,
)
    ensures
        ({
            let w2 = probes_sent(w, to, packets, probe_id, now);
            &&& continues(w.out, w2.out)
            &&& continues(peers_sent(w, to, packets).out, w2.out)
            &&& w2.net == (NetState {
                ip_probes: probes_set(w.net.ip_probes, to, packets, probe_id, now),
                ..w.net
            })
            &&& w2 == (World { out: w2.out, net: w2.net, ..w })
        }),
{
    let s = peers_sent(w, to, packets);
    let w2 = probes_sent(w, to, packets, probe_id, now);
    lemma_round_calm(w, to, packets);
    assert(continues(s.out, w2.out));
    lemma_continues_trans(w.out, s.out, w2.out);
}

proof fn lemma_probed_one(
    w: World,
    w2: World,
    packets: Seq<Seq<u8>>,
    probe_id: u64,
    ips: Seq<Seq<char>>,
    now: u64,
    k: Seq<u8>,
)
    requires
        are_probes(w, ips, probe_id, packets),
        w2 == probes_sent(w, probed(w, ips, probe_id), packets, probe_id, now),
    ensures
        probed_if_friend(w, w2, k, probe_id, ips, now),
{
    let inner = ip_changed_bytes(probe_id, ips);
    let to = probed(w, ips, probe_id);
    let s = peers_sent(w, to, packets);
    lemma_probed_frame(w, to, packets, probe_id, now);
    lemma_friend_keys(w.book, k);
    lemma_sealable(friend_keys(w.book), inner.len(), k);
    lemma_probes_set(w.net.ip_probes, to, packets, probe_id, now, k);
    if can_tell(w, k, inner.len()) {
        let j = to.index_of(k);
        assert(to[j] == k);
        let i = choose|i: int|
            0 <= i < packets.len() && #[trigger] to[i] == k && is_fresh_probe(
                lookup(w2.net.ip_probes, k),
                probe_id,
                packets[i],
                now,
            );
        lemma_round(w, to, packets);
        assert(reaches(w, s.out, to[i], packets[i]));
        assert(is_sealed_packet(
            w.net.me,
            PktType::IpChanged,
            FLAG_EPHEMERAL,
            0,
            to[i],
            inner,
            packets[i],
        ));
        lemma_reaches_later(w, w, s.out, w2.out, k, packets[i]);
    } else if exists|i: int| 0 <= i < packets.len() && #[trigger] to[i] == k {
        assert(to.contains(k));
    }
}

// ---------- the first contact ----------

proof fn lemma_pinged(w: World, peers: Seq<Seq<u8>>, k: Seq<u8>)
    ensures
        ({
            let r = pinged(w, peers);
            &&& continues(w.out, r.out)
            &&& r == (World { out: r.out, ..w })
            &&& peers.contains(k) ==> reaches(
                w,
                r.out,
                k,
                plain_packet(w.net.me, PktType::Ping, k, Seq::empty()),
            )
        }),
    decreases peers.len(),
{
    if peers.len() > 0 {
        let t = peers.drop_last();
        lemma_pinged(w, t, k);
        let f = pinged(w, t);
        let r = pinged(w, peers);
        let p = peers.last();
        let ping = plain_packet(w.net.me, PktType::Ping, p, Seq::empty());
        law_sent_to_friend(f, p, ping);
        lemma_continues_trans(w.out, f.out, r.out);
        assert(peers =~= t.push(p));
        lemma_push_contains(t, p, k);
        if peers.contains(k) {
            if t.contains(k) {
                lemma_reaches_later(
                    w,
                    w,
                    f.out,
                    r.out,
                    k,
                    plain_packet(w.net.me, PktType::Ping, k, Seq::empty()),
                );
            } else {
                lemma_reaches_later(w, f, r.out, r.out, k, ping);
            }
        }
    }
}

/// At the start every friend is pinged at all of its addresses; without a
/// friend nothing happens.
pub proof fn law_start_pings_all(w: World, k: Seq<u8>)
    ensures
        ({
            let r = started_up(w);
            &&& is_friend_key(w.book, k) ==> reaches(
                w,
                r.out,
                k,
                plain_packet(w.net.me, PktType::Ping, k, Seq::empty()),
            )
            &&& continues(w.out, r.out)
            &&& r == (World { out: r.out, ..w })
            &&& w.book.len() == 0 ==> r == w
        }),
{
    let peers = friend_keys(w.book);
    lemma_friend_keys(w.book, k);
    lemma_pinged(w, peers, k);
    let r = started_up(w);
    if peers.len() > 0 {
        let m = pinged(w, peers);
        assert(continues(m.out, r.out));
        lemma_continues_trans(w.out, m.out, r.out);
        if is_friend_key(w.book, k) {
            lemma_reaches_later(
                w,
                w,
                m.out,
                r.out,
                k,
                plain_packet(w.net.me, PktType::Ping, k, Seq::empty()),
            );
        }
    }
}

// ---------- waiting for confirmations ----------

proof fn lemma_over_from(
    probes: Seq<(Seq<u8>, ProbeView)>,
    now: u64,
    i: int,
) -> (j: int)
    requires
        0 <= i < probes_over(probes, now).len(),
    ensures
        0 <= j < probes.len(),
        probes[j] == probes_over(probes, now)[i],
        now >= probes[j].1.next_try,
        probes[j].1.attempts >= 2,
    decreases probes.len(),
{
    let t = probes.drop_last();
    let f = probes_over(t, now);
    let r = probes_over(probes, now);
    if i < f.len() {
        assert(r[i] == f[i]);
        let j = lemma_over_from(t, now, i);
        assert(probes[j] == t[j]);
        j
    } else {
        probes.len() - 1
    }
}

proof fn lemma_over_of(probes: Seq<(Seq<u8>, ProbeView)>, now: u64, j: int) -> (i: int)
    requires
        0 <= j < probes.len(),
        now >= probes[j].1.next_try,
        probes[j].1.attempts >= 2,
    ensures
        0 <= i < probes_over(probes, now).len(),
        probes[j] == probes_over(probes, now)[i],
    decreases probes.len(),
{
    let t = probes.drop_last();
    let f = probes_over(t, now);
    let r = probes_over(probes, now);
    if j < t.len() {
        assert(probes[j] == t[j]);
        let i = lemma_over_of(t, now, j);
        assert(r[i] == f[i]);
        i
    } else {
        r.len() - 1
    }
}

proof fn lemma_over_distinct(probes: Seq<(Seq<u8>, ProbeView)>, now: u64)
    requires
        distinct_keys(probes),
    ensures
        distinct_keys(probes_over(probes, now)),
    decreases probes.len(),
{
    if probes.len() > 0 {
        let t = probes.drop_last();
        let f = probes_over(t, now);
        let r = probes_over(probes, now);
        assert forall|i: int, j: int| 0 <= i < j < t.len() implies (#[trigger] t[i]).0 != (
        #[trigger] t[j]).0 by {
            assert(probes[i] == t[i] && probes[j] == t[j]);
        }
        lemma_over_distinct(t, now);
        assert forall|i: int, j: int| 0 <= i < j < r.len() implies (#[trigger] r[i]).0 != (
        #[trigger] r[j]).0 by {
            assert(r[i] == f[i]);
            if j < f.len() {
                assert(r[j] == f[j]);
            } else {
                let m = lemma_over_from(t, now, i);
                assert(probes[m] == t[m]);
                assert(probes[m].0 != probes[probes.len() - 1].0);
            }
        }
    }
}

/// Whether someone who did not confirm is told through every other friend.
pub open spec fn is_gossiped(
    w: World,
    out: Seq<OutView>,
    victim: Seq<u8>,
    ips: Seq<Seq<char>>,
) -> bool {
    let inner = gossip_bytes(seq![victim], ips);
    forall|k: Seq<u8>|
        k != victim && #[trigger] can_tell(w, k, inner.len()) ==> is_told(
            w,
            out,
            PktType::Gossip,
            FLAG_EPHEMERAL,
            k,
            inner,
        )
}

proof fn lemma_gossiped(w: World, w2: World, victim: Seq<u8>, local: LocalIps)
    requires
        gossips(w, w2, victim, local),
    ensures
        is_gossiped(w, w2.out, victim, announces(w.net, local)),
{
    let inner = gossip_bytes(seq![victim], announces(w.net, local));
    let keys = keys_but(friend_keys(w.book), victim);
    let peers = sealable(keys, inner.len());
    let packets = choose|packets: Seq<Seq<u8>>|
        are_sealed_for(w.net.me, PktType::Gossip, FLAG_EPHEMERAL, peers, inner, packets) && w2
            == #[trigger] peers_sent(w, peers, packets);
    assert forall|k: Seq<u8>| k != victim && #[trigger] can_tell(w, k, inner.len()) implies is_told(
        w,
        w2.out,
        PktType::Gossip,
        FLAG_EPHEMERAL,
        k,
        inner,
    ) by {
        lemma_friend_keys(w.book, k);
        lemma_keys_but(friend_keys(w.book), victim, k);
        lemma_sealable(keys, inner.len(), k);
        lemma_round_tells(w, PktType::Gossip, FLAG_EPHEMERAL, peers, inner, packets, k);
    }
}

/// What was gossiped in a later world with the same friends was gossiped in an
/// earlier one.
proof fn lemma_gossiped_later(
    w: World,
    a: World,
    out: Seq<OutView>,
    out2: Seq<OutView>,
    victim: Seq<u8>,
    ips: Seq<Seq<char>>,
)
    requires
        is_gossiped(a, out, victim, ips),
        a.book == w.book,
        a.net.me == w.net.me,
        a.net.use_v6 == w.net.use_v6,
        w.out.len() <= a.out.len(),
        continues(out, out2),
    ensures
        is_gossiped(w, out2, victim, ips),
{
    let inner = gossip_bytes(seq![victim], ips);
    assert forall|k: Seq<u8>| k != victim && #[trigger] can_tell(w, k, inner.len()) implies is_told(
        w,
        out2,
        PktType::Gossip,
        FLAG_EPHEMERAL,
        k,
        inner,
    ) by {
        assert(can_tell(a, k, inner.len()));
        let packet = choose|packet: Seq<u8>| #[trigger]
            is_sealed_packet(
                a.net.me,
                PktType::Gossip,
                FLAG_EPHEMERAL,
                0,
                k,
                inner,
                packet,
            ) && reaches(a, out, k, packet);
        lemma_reaches_later(w, a, out, out2, k, packet);
    }
}

/// Giving up on others leaves someone alone.
proof fn lemma_give_up_others(
    w: World,
    over: Seq<(Seq<u8>, ProbeView)>,
    steps: Seq<World>,
    local: LocalIps,
    m: int,
    n: int,
    k: Seq<u8>,
)
    requires
        steps.len() == over.len() + 1,
        steps[0] == w,
        forall|i: int| 0 <= i < over.len() ==> #[trigger] gives_up_at(steps, over, i, local),
        0 <= m <= n < steps.len(),
        forall|i: int| m <= i < n ==> (#[trigger] over[i]).0 != k,
    ensures
        lookup(steps[n].net.ip_probes, k) == lookup(steps[m].net.ip_probes, k),
        lookup(steps[n].net.pending_announce, k) == lookup(steps[m].net.pending_announce, k),
        continues(steps[m].out, steps[n].out),
    decreases n,
{
    if n > m {
        lemma_give_up_others(w, over, steps, local, m, n - 1, k);
        assert(gives_up_at(steps, over, n - 1, local));
        let a = steps[n - 1];
        let (victim, p) = over[n - 1];
        let b = probe_given_up(a, victim, p);
        lemma_gossip_frame(b, steps[n], victim, local);
        law_table(a.net.ip_probes, victim, p, k);
        law_table(
            a.net.pending_announce,
            victim,
            AnnounceView { bytes: p.bytes, probe_id: p.probe_id },
            k,
        );
        assert(continues(a.out, b.out));
        lemma_continues_trans(a.out, b.out, steps[n].out);
        lemma_continues_trans(steps[m].out, a.out, steps[n].out);
    }
}

/// What giving up on someone does.
proof fn lemma_give_up_one(
    w: World,
    over: Seq<(Seq<u8>, ProbeView)>,
    steps: Seq<World>,
    local: LocalIps,
    i: int,
)
    requires
        steps.len() == over.len() + 1,
        steps[0] == w,
        forall|j: int| 0 <= j < over.len() ==> #[trigger] gives_up_at(steps, over, j, local),
        distinct_keys(over),
        0 <= i < over.len(),
    ensures
        ({
            let (k, p) = over[i];
            let r = steps[steps.len() - 1];
            &&& lookup(r.net.ip_probes, k) is None
            &&& lookup(r.net.pending_announce, k) == Some(
                AnnounceView { bytes: p.bytes, probe_id: p.probe_id },
            )
            &&& is_gossiped(w, r.out, k, announces(w.net, local))
            &&& appears(
                r.out,
                w.out.len() as int,
                OutView::Event(EventView::Status(unconfirmed_text(k))),
            )
        }),
{
    let (k, p) = over[i];
    let n = over.len() as int;
    let r = steps[n];
    lemma_give_up_frame(w, over, steps, local, i);
    assert forall|j: int| i + 1 <= j < n implies (#[trigger] over[j]).0 != k by {
        assert(over[i].0 == k);
    }
    lemma_give_up_others(w, over, steps, local, i + 1, n, k);
    assert(gives_up_at(steps, over, i, local));
    let a = steps[i];
    let b = probe_given_up(a, k, p);
    let c = steps[i + 1];
    lemma_gossip_frame(b, c, k, local);
    lemma_gossiped(b, c, k, local);
    let other = k.push(0);
    assert(other.len() != k.len());
    law_table(a.net.ip_probes, k, p, other);
    law_table(
        a.net.pending_announce,
        k,
        AnnounceView { bytes: p.bytes, probe_id: p.probe_id },
        other,
    );
    lemma_gossiped_later(w, b, c.out, r.out, k, announces(w.net, local));
    let e = OutView::Event(EventView::Status(unconfirmed_text(k)));
    assert(b.out[b.out.len() - 1] == e);
    assert(c.out[b.out.len() - 1] == e);
    assert(r.out[b.out.len() - 1] == e);
}

/// A probe that is not due waits on. One that is due and was repeated less
/// than twice goes out again to all addresses of the friend, and waits for
/// another ten seconds, counted once more. One that was repeated twice is given
/// up: it is kept to be delivered when the friend is heard of, and every other
/// friend is asked to pass our addresses on.
pub proof fn law_probes_after_poll(
    w: World,
    w2: World,
    now: u64,
    local: LocalIps,
    k: Seq<u8>,
)
    requires
        polls_probes(w, w2, now, local),
        distinct_keys(w.net.ip_probes),
    ensures
        match lookup(w.net.ip_probes, k) {
            None => {
                &&& lookup(w2.net.ip_probes, k) is None
                &&& lookup(w2.net.pending_announce, k) == lookup(w.net.pending_announce, k)
            },
            Some(p) => if now < p.next_try {
                &&& lookup(w2.net.ip_probes, k) == Some(p)
                &&& lookup(w2.net.pending_announce, k) == lookup(w.net.pending_announce, k)
            } else if p.attempts < 2 {
                &&& lookup(w2.net.ip_probes, k) == Some(
                    ProbeView {
                        attempts: (p.attempts + 1) as u32,
                        next_try: if now + 10_000 <= u64::MAX {
                            (now + 10_000) as u64
                        } else {
                            u64::MAX
                        },
                        ..p
                    },
                )
                &&& lookup(w2.net.pending_announce, k) == lookup(w.net.pending_announce, k)
                &&& reaches(w, w2.out, k, p.bytes)
            } else {
                &&& lookup(w2.net.ip_probes, k) is None
                &&& lookup(w2.net.pending_announce, k) == Some(
                    AnnounceView { bytes: p.bytes, probe_id: p.probe_id },
                )
                &&& is_gossiped(w, w2.out, k, announces(w.net, local))
                &&& appears(
                    w2.out,
                    w.out.len() as int,
                    OutView::Event(EventView::Status(unconfirmed_text(k))),
                )
            },
        },
{
    let probes = w.net.ip_probes;
    let a = probes_polled(w, now);
    let over = probes_over(probes, now);
    let steps = choose|steps: Seq<World>| #[trigger] gives_up_by(a, w2, over, steps, local);
    let n = over.len() as int;
    let bumped = probes_bumped(probes, now);
    lemma_repeated_probes(w, probes, now);
    lemma_over_distinct(probes, now);
    lemma_give_up_frame(a, over, steps, local, n);
    lemma_key_index(probes, k);
    let at = key_index(probes, k);
    lemma_key_index_is(bumped, k, at);
    let given_up = lookup(probes, k) matches Some(p) && now >= p.next_try && p.attempts >= 2;
    if given_up {
        let i = lemma_over_of(probes, now, at);
        lemma_give_up_one(a, over, steps, local, i);
        lemma_gossiped_later(w, a, w2.out, w2.out, k, announces(w.net, local));
        lemma_appears_earlier(
            w2.out,
            w.out.len() as int,
            a.out.len() as int,
            OutView::Event(EventView::Status(unconfirmed_text(k))),
        );
    } else {
        assert forall|i: int| 0 <= i < n implies (#[trigger] over[i]).0 != k by {
            let j = lemma_over_from(probes, now, i);
            if over[i].0 == k {
                if at < j {
                    assert(probes[at].0 != probes[j].0);
                }
                assert(j == at);
            }
        }
        lemma_give_up_others(a, over, steps, local, 0, n, k);
        if has_key(probes, k) && now >= probes[at].1.next_try {
            lemma_reaches_later(w, w, a.out, w2.out, k, probes[at].1.bytes);
        }
    }
}

/// In a turn of the clock too, a probe that is due goes out again.
pub proof fn law_due_probes_go_out(w: World, w2: World, now: u64, local: LocalIps, k: Seq<u8>)
    requires
        ticks(w, w2, now, local),
        distinct_keys(w.net.ip_probes),
        lookup(w.net.ip_probes, k) matches Some(p) && now >= p.next_try,
    ensures
        lookup(w.net.ip_probes, k)->0.attempts < 2 ==> reaches(
            w,
            w2.out,
            k,
            lookup(w.net.ip_probes, k)->0.bytes,
        ),
        lookup(w.net.ip_probes, k)->0.attempts >= 2 ==> is_gossiped(
            w,
            w2.out,
            k,
            announces(w.net, local),
        ) && lookup(w2.net.pending_announce, k) == Some(
            AnnounceView {
                bytes: lookup(w.net.ip_probes, k)->0.bytes,
                probe_id: lookup(w.net.ip_probes, k)->0.probe_id,
            },
        ),
{
    let t = lemma_turn(w, w2, now, local);
    law_probes_after_poll(t.asked, t.probed, now, local, k);
    lemma_continues_trans(w.out, t.sent.out, t.asked.out);
    lemma_continues_trans(t.probed.out, t.pushed.out, w2.out);
    let p = lookup(w.net.ip_probes, k)->0;
    if p.attempts < 2 {
        lemma_reaches_later(w, t.asked, t.probed.out, w2.out, k, p.bytes);
    } else {
        lemma_gossiped_later(w, t.asked, t.probed.out, w2.out, k, announces(w.net, local));
    }
}

// ---------- confirmations and contact ----------

/// A confirmation ends the wait for a friend, and drops what was kept for it
/// if that is what it confirms; others are left alone.
pub proof fn law_confirmation_arrives(
    w: World,
    w2: World,
    bytes: Seq<u8>,
    src: AddrView,
    now: Moment,
    r: Result<(), NetError>,
    peer: Me,
    flags: u8,
    seq: u32,
    probe_id: u64,
    other: Seq<u8>,
)
    requires
        packet_step(w, w2, bytes, src, now, r),
        taken_for(
            w.net.me,
            w.book,
            bytes,
            peer,
            PktType::IpChangedAck,
            flags,
            seq,
            be64(probe_id),
        ),
        other != peer.ed_pub,
    ensures
        r is Ok,
        lookup(w2.net.ip_probes, peer.ed_pub) is None,
        lookup(w2.net.ip_probes, other) == lookup(w.net.ip_probes, other),
        lookup(w2.net.pending_announce, other) == lookup(w.net.pending_announce, other),
        lookup(w2.net.pending_announce, peer.ed_pub) == match lookup(
            w.net.pending_announce,
            peer.ed_pub,
        ) {
            Some(a) => if a.probe_id == probe_id {
                None
            } else {
                Some(a)
            },
            None => None,
        },
        quietly_extends(w.out, w2.out),
{
    let p = accepted(w.net.me, w.book, bytes)->Ok_0;
    let who = p.sender_id;
    let ip = ip_port_text(src.ip(), src.port());
    let a = noted_seen(w, who, ip, now);
    lemma_noted(w, who, ip, now, (who, 0));
    let b = lemma_packet(w, w2, bytes, src, now, r, p);
    law_ip_changed_ack_round_trip(probe_id);
    assert(b.net == confirmed(a.net, who, probe_id));
    law_table(a.net.ip_probes, who, arbitrary(), other);
    law_table(a.net.pending_announce, who, arbitrary(), other);
    lemma_extends_trans(w.out, b.out, w2.out);
}

/// Whenever a packet of a friend has been handled, what is still kept for that
/// friend is sent to where the packet came from.
pub proof fn law_kept_announcement_is_delivered(
    w: World,
    w2: World,
    bytes: Seq<u8>,
    src: AddrView,
    now: Moment,
    p: PacketView,
    a: AnnounceView,
)
    requires
        packet_step(w, w2, bytes, src, now, Ok(())),
        accepted(w.net.me, w.book, bytes) == Ok::<PacketView, NetError>(p),
        lookup(w2.net.pending_announce, p.sender_id) == Some(a),
    ensures
        w2.out.len() > 0,
        w2.out.last() == (OutView::Send {
            to: wire_form(w2.net.use_v6, src),
            bytes: a.bytes,
        }),
{
    let x = noted_seen(w, p.sender_id, ip_port_text(src.ip(), src.port()), now);
    let b = choose|b: World| #[trigger]
        handles(x, b, p, src, now, Ok(())) && follows_up(b, w2, p.sender_id, src, now.tick);
    let c = choose|c: World| #[trigger]
        delivers_pushes(b, c, p.sender_id, now.tick) && w2 == announce_delivered(
            c,
            p.sender_id,
            src,
        );
}

/// A ping is answered to where it came from; a pong shows that the friend is
/// there.
pub proof fn law_ping_is_answered(
    w: World,
    w2: World,
    bytes: Seq<u8>,
    src: AddrView,
    now: Moment,
    r: Result<(), NetError>,
    p: PacketView,
)
    requires
        packet_step(w, w2, bytes, src, now, r),
        accepted(w.net.me, w.book, bytes) == Ok::<PacketView, NetError>(p),
    ensures
        p.ptype == PktType::Ping ==> r is Ok && appears(
            w2.out,
            w.out.len() as int,
            OutView::Send {
                to: wire_form(w.net.use_v6, src),
                bytes: plain_packet(w.net.me, PktType::Pong, p.sender_id, Seq::empty()),
            },
        ),
        p.ptype == PktType::Pong ==> r is Ok && appears(
            w2.out,
            w.out.len() as int,
            OutView::Event(EventView::FriendSeen { peer: p.sender_id }),
        ),
{
    let ip = ip_port_text(src.ip(), src.port());
    lemma_noted(w, p.sender_id, ip, now, (p.sender_id, 0));
    let b = lemma_packet(w, w2, bytes, src, now, r, p);
    if p.ptype == PktType::Ping || p.ptype == PktType::Pong {
        let k = b.out.len() - 1;
        assert(w2.out[k] == b.out[k]);
    }
}

} // verus!
