//! How addresses are passed on: what a friend entrusts to us is kept for the
//! friends it names, reaches them when they are there, and is taken in by them.

use vstd::prelude::*;

use crate::crypto::id;
use crate::net::announce::{announce_delivered, LocalIps};
use crate::net::driver::{
    accepted, follows_up, handles, lemma_resent, packet_step, taken_for, ticks,
};
use crate::net::event::{EventView, Moment, OutView};
use crate::net::ip::{ip_port_text, AddrView};
use crate::net::laws::lemma_pushes_sent_out;
use crate::net::node::{
    can_seal, is_sealed_packet, noted_seen, retried_failed, Me, NetError, NetState, PushView, World,
};
use crate::net::packet::{PacketView, PktType, FLAG_EPHEMERAL};
use crate::net::pushes::{
    are_push_packets, delivered, delivers_all_by, delivers_pushes, gossip_count, gossip_present,
    gossip_stored, gossip_taken, gossip_text, has_source, is_news, may_hand_on, polls_pushes_by,
    polls_pushes_for, push_stored, push_text, pushes_bumped, pushes_for, pushes_kept, pushes_pruned,
    table_keys, told,
};
use crate::net::route_laws::{
    appears, continues, lemma_continues_trans, lemma_reaches_later, reaches,
};
use crate::net::search_laws::is_back;
use crate::net::sending_laws::{has_address, is_told, lemma_has_address, lemma_push_contains};
use crate::net::tick_laws::{
    calmly_continues, lemma_calm_trans, lemma_delivery_frame, lemma_pushes_frame,
    lemma_pushes_round, lemma_turn,
};
use crate::net::traffic_laws::{
    law_failed_go_out, lemma_book_of, lemma_noted, lemma_noted_distinct, lemma_packet,
    lemma_resent_grows, lemma_took_in, took_in,
};
use crate::proto::ProtoError;
use crate::proto::addressing::{gossip_of, push_ip_bytes, push_ip_of};
use crate::store::friends::{book_merged, friend_of, has_friend, FriendView};
use crate::table::{distinct_keys, has_key, key_index, law_table, lemma_key_index, lookup};

verus! {

// ---------- deliveries ----------

/// Whether an entrusted announcement goes out now.
pub open spec fn is_due(p: PushView, victim: Seq<u8>, now: u64) -> bool {
    now >= p.next_try && can_seal(victim, push_ip_bytes(p.source, p.ips).len())
}

/// An entrusted announcement after it went out: counted once more, for two
/// seconds.
pub open spec fn sent_once_more(p: PushView, now: u64) -> PushView {
    PushView {
        attempts: if p.attempts == 255 {
            255
        } else {
            (p.attempts + 1) as u8
        },
        next_try: if now + 2000 <= u64::MAX {
            (now + 2000) as u64
        } else {
            u64::MAX
        },
        ..p
    }
}

/// Whether an entrusted announcement reaches the one it is for.
pub open spec fn is_passed_on(w: World, out: Seq<OutView>, victim: Seq<u8>, p: PushView) -> bool {
    is_told(w, out, PktType::PushIp, FLAG_EPHEMERAL, victim, push_ip_bytes(p.source, p.ips))
}

/// Everything that is due for someone goes out to all of its addresses and is
/// then counted; the rest stays as it is. What is kept for others is left
/// alone.
pub proof fn law_pushes_are_delivered(
    w: World,
    w2: World,
    victim: Seq<u8>,
    now: u64,
    other: Seq<u8>,
)
    requires
        delivers_pushes(w, w2, victim, now),
        other != victim,
    ensures
        lookup(w2.net.pending_pushes, other) == lookup(w.net.pending_pushes, other),
        match lookup(w.net.pending_pushes, victim) {
            None => w2 == w,
            Some(list) => {
                &&& lookup(w2.net.pending_pushes, victim) matches Some(after)
                &&& after.len() == list.len()
                &&& forall|i: int|
                    0 <= i < list.len() ==> if is_due(#[trigger] list[i], victim, now) {
                        after[i] == sent_once_more(list[i], now) && is_passed_on(
                            w,
                            w2.out,
                            victim,
                            list[i],
                        )
                    } else {
                        after[i] == list[i]
                    }
            },
        },
{
    let packets = choose|packets: Seq<Seq<u8>>|
        are_push_packets(w.net.me, victim, pushes_for(w.net, victim), packets, now) && w2
            == #[trigger] delivered(w, victim, packets, now);
    match lookup(w.net.pending_pushes, victim) {
        None => {},
        Some(list) => {
            let after = pushes_bumped(list, victim, now);
            lemma_pushes_round(w, victim, list, packets, now);
            law_table(w.net.pending_pushes, victim, after, other);
            assert forall|i: int| 0 <= i < list.len() implies if is_due(
                #[trigger] list[i],
                victim,
                now,
            ) {
                after[i] == sent_once_more(list[i], now) && is_passed_on(
                    w,
                    w2.out,
                    victim,
                    list[i],
                )
            } else {
                after[i] == list[i]
            } by {
                if is_due(list[i], victim, now) {
                    let packet = packets[i];
                    assert(is_sealed_packet(
                        w.net.me,
                        PktType::PushIp,
                        FLAG_EPHEMERAL,
                        0,
                        victim,
                        push_ip_bytes(list[i].source, list[i].ips),
                        packet,
                    ));
                    assert(reaches(w, w2.out, victim, packet));
                }
            }
        },
    }
}

/// What reached someone in a later world with the same friends reached it in
/// an earlier one.
pub proof fn lemma_passed_later(
    w: World,
    a: World,
    out: Seq<OutView>,
    out2: Seq<OutView>,
    victim: Seq<u8>,
    p: PushView,
)
    requires
        is_passed_on(a, out, victim, p),
        friend_of(a.book, victim) == friend_of(w.book, victim),
        a.net.me == w.net.me,
        a.net.use_v6 == w.net.use_v6,
        w.out.len() <= a.out.len(),
        continues(out, out2),
    ensures
        is_passed_on(w, out2, victim, p),
{
    let inner = push_ip_bytes(p.source, p.ips);
    let packet = choose|packet: Seq<u8>| #[trigger]
        is_sealed_packet(a.net.me, PktType::PushIp, FLAG_EPHEMERAL, 0, victim, inner, packet)
            && reaches(a, out, victim, packet);
    lemma_reaches_later(w, a, out, out2, victim, packet);
}

// ---------- the passing of time ----------

proof fn lemma_pushes_kept(list: Seq<PushView>, p: PushView)
    ensures
        pushes_kept(list).contains(p) <==> list.contains(p) && p.attempts <= 2,
    decreases list.len(),
{
    if list.len() > 0 {
        let t = list.drop_last();
        lemma_pushes_kept(t, p);
        assert(list =~= t.push(list.last()));
        lemma_push_contains(t, list.last(), p);
        lemma_push_contains(pushes_kept(t), list.last(), p);
    }
}

/// What a poll for someone does to what is kept for it and for others.
proof fn lemma_polled_for(w: World, w2: World, victim: Seq<u8>, now: u64, other: Seq<u8>)
    requires
        polls_pushes_for(w, w2, victim, now),
        other != victim,
    ensures
        lookup(w2.net.pending_pushes, other) == lookup(w.net.pending_pushes, other),
        calmly_continues(w.out, w2.out),
        w2.net == (NetState { pending_pushes: w2.net.pending_pushes, ..w.net }),
        w2 == (World { net: w2.net, out: w2.out, ..w }),
        match lookup(w.net.pending_pushes, victim) {
            None => lookup(w2.net.pending_pushes, victim) is None,
            Some(list) => polled_list(
                w,
                w2.out,
                victim,
                list,
                lookup(w2.net.pending_pushes, victim),
                now,
            ),
        },
{
    let a = choose|a: World| #[trigger]
        delivers_pushes(w, a, victim, now) && w2 == (World {
            net: pushes_pruned(a.net, victim),
            ..a
        });
    lemma_delivery_frame(w, a, victim, now);
    law_pushes_are_delivered(w, a, victim, now, other);
    match lookup(w.net.pending_pushes, victim) {
        None => {},
        Some(list) => {
            let after = lookup(a.net.pending_pushes, victim)->0;
            let kept = pushes_kept(after);
            law_table(a.net.pending_pushes, victim, kept, other);
            let r = lookup(w2.net.pending_pushes, victim);
            assert(r == if kept.len() == 0 {
                None
            } else {
                Some(kept)
            });
            assert forall|i: int| 0 <= i < list.len() && is_due(
                #[trigger] list[i],
                victim,
                now,
            ) implies is_passed_on(w, w2.out, victim, list[i]) by {}
            assert forall|i: int| 0 <= i < list.len() implies is_still_kept(
                r,
                after_poll(#[trigger] list[i], victim, now),
            ) == (after_poll(list[i], victim, now).attempts <= 2) by {
                let e = after[i];
                assert(after.contains(e));
                lemma_pushes_kept(after, e);
                assert(e == after_poll(list[i], victim, now));
                if kept.contains(e) {
                    assert(kept.len() > 0);
                }
            }
            assert forall|e: PushView| #[trigger] is_still_kept(r, e) implies exists|i: int|
                0 <= i < list.len() && after_poll(#[trigger] list[i], victim, now) == e by {
                lemma_pushes_kept(after, e);
                let i = after.index_of(e);
                assert(after[i] == e);
                assert(after_poll(list[i], victim, now) == e);
            }
        },
    }
}

/// An entrusted announcement after a poll, before it is decided whether it is
/// kept.
pub open spec fn after_poll(p: PushView, victim: Seq<u8>, now: u64) -> PushView {
    if is_due(p, victim, now) {
        sent_once_more(p, now)
    } else {
        p
    }
}

/// Whether an entrusted announcement is among those kept for someone.
pub open spec fn is_still_kept(list: Option<Seq<PushView>>, p: PushView) -> bool {
    list matches Some(l) && l.contains(p)
}

/// What a poll makes of the list kept for someone: everything due goes out,
/// what went out more than twice is dropped, and the rest is kept.
pub open spec fn polled_list(
    w: World,
    out: Seq<OutView>,
    victim: Seq<u8>,
    list: Seq<PushView>,
    after: Option<Seq<PushView>>,
    now: u64,
) -> bool {
    &&& forall|i: int|
        0 <= i < list.len() && is_due(#[trigger] list[i], victim, now) ==> is_passed_on(
            w,
            out,
            victim,
            list[i],
        )
    &&& forall|i: int|
        0 <= i < list.len() ==> is_still_kept(after, after_poll(#[trigger] list[i], victim, now))
            == (after_poll(list[i], victim, now).attempts <= 2)
    &&& forall|e: PushView| #[trigger]
        is_still_kept(after, e) ==> exists|i: int|
            0 <= i < list.len() && after_poll(#[trigger] list[i], victim, now) == e
}

/// Polls for others leave someone alone.
proof fn lemma_polled_others(
    w: World,
    victims: Seq<Seq<u8>>,
    steps: Seq<World>,
    now: u64,
    m: int,
    n: int,
    k: Seq<u8>,
)
    requires
        steps.len() == victims.len() + 1,
        steps[0] == w,
        forall|i: int|
            #![trigger victims[i]]
            0 <= i < victims.len() ==> polls_pushes_for(steps[i], steps[i + 1], victims[i], now),
        0 <= m <= n < steps.len(),
        forall|i: int| m <= i < n ==> #[trigger] victims[i] != k,
    ensures
        lookup(steps[n].net.pending_pushes, k) == lookup(steps[m].net.pending_pushes, k),
        continues(steps[m].out, steps[n].out),
    decreases n,
{
    if n > m {
        lemma_polled_others(w, victims, steps, now, m, n - 1, k);
        let v = victims[n - 1];
        lemma_polled_for(steps[n - 1], steps[n], v, now, k);
        lemma_continues_trans(steps[m].out, steps[n - 1].out, steps[n].out);
    }
}

/// In a turn of the clock, everything entrusted to us that is due goes out to
/// all addresses of the one it is for; what went out more than twice is
/// dropped, and the rest is kept.
pub proof fn law_pushes_after_turn(
    w: World,
    w2: World,
    now: u64,
    local: LocalIps,
    k: Seq<u8>,
)
    requires
        ticks(w, w2, now, local),
        distinct_keys(w.net.pending_pushes),
    ensures
        match lookup(w.net.pending_pushes, k) {
            None => lookup(w2.net.pending_pushes, k) is None,
            Some(list) => polled_list(
                w,
                w2.out,
                k,
                list,
                lookup(w2.net.pending_pushes, k),
                now,
            ),
        },
{
    let t = lemma_turn(w, w2, now, local);
    let b = t.probed;
    let victims = table_keys(b.net.pending_pushes);
    let steps = choose|steps: Seq<World>| #[trigger]
        polls_pushes_by(b, t.pushed, victims, steps, now);
    let n = victims.len() as int;
    let pushes = w.net.pending_pushes;
    lemma_key_index(pushes, k);
    let at = key_index(pushes, k);
    lemma_continues_trans(w.out, t.sent.out, t.asked.out);
    lemma_continues_trans(w.out, t.asked.out, t.probed.out);
    if has_key(pushes, k) {
        let list = lookup(pushes, k)->0;
        assert(victims[at] == k);
        assert forall|i: int| 0 <= i < at implies #[trigger] victims[i] != k by {
            assert(pushes[i].0 != k);
        }
        assert forall|i: int| at + 1 <= i < n implies #[trigger] victims[i] != k by {
            assert(pushes[at].0 != pushes[i].0);
        }
        lemma_polled_others(b, victims, steps, now, 0, at, k);
        lemma_pushes_frame(b, victims, steps, now, at);
        let other = k.push(0);
        assert(other.len() != k.len());
        lemma_polled_for(steps[at], steps[at + 1], k, now, other);
        lemma_polled_others(b, victims, steps, now, at + 1, n, k);
        lemma_continues_trans(steps[at + 1].out, t.pushed.out, w2.out);
        assert forall|i: int| 0 <= i < list.len() && is_due(
            #[trigger] list[i],
            k,
            now,
        ) implies is_passed_on(w, w2.out, k, list[i]) by {
            lemma_passed_later(w, steps[at], steps[at + 1].out, w2.out, k, list[i]);
        }
    } else {
        assert forall|i: int| 0 <= i < n implies #[trigger] victims[i] != k by {
            assert(pushes[i].0 != k);
        }
        lemma_polled_others(b, victims, steps, now, 0, n, k);
    }
}

// ---------- what is entrusted to us ----------

/// Whether an announcement of someone is kept for someone else.
pub open spec fn keeps_for(
    pushes: Seq<(Seq<u8>, Seq<PushView>)>,
    victim: Seq<u8>,
    source: Seq<u8>,
) -> bool {
    lookup(pushes, victim) matches Some(list) && has_source(list, source)
}

/// Whether it is kept with these addresses.
pub open spec fn keeps_ips(
    pushes: Seq<(Seq<u8>, Seq<PushView>)>,
    victim: Seq<u8>,
    source: Seq<u8>,
    ips: Seq<Seq<char>>,
) -> bool {
    lookup(pushes, victim) matches Some(list) && exists|i: int|
        0 <= i < list.len() && (#[trigger] list[i]).source == source && list[i].ips == ips
}

/// Whether it is kept with these addresses and due at once.
pub open spec fn keeps_due(
    pushes: Seq<(Seq<u8>, Seq<PushView>)>,
    victim: Seq<u8>,
    source: Seq<u8>,
    ips: Seq<Seq<char>>,
    now: u64,
) -> bool {
    lookup(pushes, victim) matches Some(list) && exists|i: int|
        0 <= i < list.len() && (#[trigger] list[i]) == (PushView {
            source,
            ips,
            attempts: 0,
            next_try: now,
        })
}

proof fn lemma_stored(
    pushes: Seq<(Seq<u8>, Seq<PushView>)>,
    victim: Seq<u8>,
    source: Seq<u8>,
    ips: Seq<Seq<char>>,
    now: u64,
)
    ensures
        ({
            let r = push_stored(pushes, victim, source, ips, now);
            &&& keeps_for(r, victim, source)
            &&& !keeps_for(pushes, victim, source) ==> keeps_due(r, victim, source, ips, now)
            &&& keeps_for(pushes, victim, source) ==> r == pushes
            &&& forall|k: Seq<u8>| k != victim ==> #[trigger] lookup(r, k) == lookup(pushes, k)
        }),
{
    let r = push_stored(pushes, victim, source, ips, now);
    let list = match lookup(pushes, victim) {
        Some(list) => list,
        None => Seq::empty(),
    };
    let e = PushView { source, ips, attempts: 0, next_try: now };
    let full = list.push(e);
    let other = victim.push(0);
    assert(other.len() != victim.len());
    law_table(pushes, victim, full, other);
    if !has_source(list, source) {
        assert(full[list.len() as int] == e);
        assert(lookup(r, victim) == Some(full));
    }
    assert forall|k: Seq<u8>| k != victim implies #[trigger] lookup(r, k) == lookup(pushes, k) by {
        law_table(pushes, victim, full, k);
    }
}

pub proof fn lemma_gossip_stored(
    w: World,
    source: Seq<u8>,
    victims: Seq<Seq<u8>>,
    ips: Seq<Seq<char>>,
    now: u64,
    v: Seq<u8>,
)
    ensures
        ({
            let r = gossip_stored(w, source, victims, ips, now);
            if victims.contains(v) && may_hand_on(w, source, v) {
                &&& keeps_for(r, v, source)
                &&& !keeps_for(w.net.pending_pushes, v, source) ==> keeps_due(
                    r,
                    v,
                    source,
                    ips,
                    now,
                )
                &&& keeps_for(w.net.pending_pushes, v, source) ==> lookup(r, v) == lookup(
                    w.net.pending_pushes,
                    v,
                )
            } else {
                lookup(r, v) == lookup(w.net.pending_pushes, v)
            }
        }),
    decreases victims.len(),
{
    if victims.len() > 0 {
        let t = victims.drop_last();
        let last = victims.last();
        lemma_gossip_stored(w, source, t, ips, now, v);
        let f = gossip_stored(w, source, t, ips, now);
        assert(victims =~= t.push(last));
        lemma_push_contains(t, last, v);
        lemma_stored(f, last, source, ips, now);
    }
}

proof fn lemma_gossip_present(
    w: World,
    source: Seq<u8>,
    victims: Seq<Seq<u8>>,
    unix: u64,
    v: Seq<u8>,
)
    ensures
        gossip_present(w, source, victims, unix).contains(v) <==> victims.contains(v)
            && may_hand_on(w, source, v) && is_here(w, v, unix),
    decreases victims.len(),
{
    if victims.len() > 0 {
        let t = victims.drop_last();
        lemma_gossip_present(w, source, t, unix, v);
        assert(victims =~= t.push(victims.last()));
        lemma_push_contains(t, victims.last(), v);
        lemma_push_contains(gossip_present(w, source, t, unix), victims.last(), v);
    }
}

/// Whether a friend was seen in the last five minutes.
pub open spec fn is_here(w: World, v: Seq<u8>, unix: u64) -> bool {
    friend_of(w.book, v) matches Some(f) && (f.last_seen matches Some(ts) && unix - ts < 300_000)
}

/// A delivery forgets nothing.
proof fn lemma_delivery_keeps(
    w: World,
    w2: World,
    victim: Seq<u8>,
    now: u64,
    v: Seq<u8>,
    source: Seq<u8>,
    ips: Seq<Seq<char>>,
)
    requires
        delivers_pushes(w, w2, victim, now),
    ensures
        keeps_for(w.net.pending_pushes, v, source) ==> keeps_for(
            w2.net.pending_pushes,
            v,
            source,
        ),
        keeps_ips(w.net.pending_pushes, v, source, ips) ==> keeps_ips(
            w2.net.pending_pushes,
            v,
            source,
            ips,
        ),
        victim != v ==> lookup(w2.net.pending_pushes, v) == lookup(w.net.pending_pushes, v),
{
    if victim != v {
        law_pushes_are_delivered(w, w2, victim, now, v);
    } else {
        let other = v.push(0);
        assert(other.len() != v.len());
        law_pushes_are_delivered(w, w2, v, now, other);
        match lookup(w.net.pending_pushes, v) {
            Some(list) => {
                let after = lookup(w2.net.pending_pushes, v)->0;
                assert forall|i: int| 0 <= i < list.len() implies (#[trigger] list[i]).source
                    == after[i].source && list[i].ips == after[i].ips by {}
                if has_source(list, source) {
                    let i = choose|i: int|
                        0 <= i < list.len() && (#[trigger] list[i]).source == source;
                    assert(after[i].source == source);
                }
                if keeps_ips(w.net.pending_pushes, v, source, ips) {
                    let i = choose|i: int|
                        0 <= i < list.len() && (#[trigger] list[i]).source == source
                            && list[i].ips == ips;
                    assert(after[i].source == source);
                }
            },
            None => {},
        }
    }
}

pub proof fn lemma_all_delivered(
    w: World,
    victims: Seq<Seq<u8>>,
    steps: Seq<World>,
    now: u64,
    m: int,
    n: int,
    v: Seq<u8>,
    source: Seq<u8>,
    ips: Seq<Seq<char>>,
)
    requires
        steps.len() == victims.len() + 1,
        steps[0] == w,
        forall|i: int|
            #![trigger victims[i]]
            0 <= i < victims.len() ==> delivers_pushes(steps[i], steps[i + 1], victims[i], now),
        0 <= m <= n < steps.len(),
    ensures
        ({
            let a = steps[m];
            let b = steps[n];
            &&& calmly_continues(a.out, b.out)
            &&& b.net == (NetState { pending_pushes: b.net.pending_pushes, ..a.net })
            &&& b == (World { net: b.net, out: b.out, ..a })
            &&& keeps_for(a.net.pending_pushes, v, source) ==> keeps_for(
                b.net.pending_pushes,
                v,
                source,
            )
            &&& keeps_ips(a.net.pending_pushes, v, source, ips) ==> keeps_ips(
                b.net.pending_pushes,
                v,
                source,
                ips,
            )
            &&& (forall|i: int| m <= i < n ==> #[trigger] victims[i] != v) ==> lookup(
                b.net.pending_pushes,
                v,
            ) == lookup(a.net.pending_pushes, v)
        }),
    decreases n,
{
    if n > m {
        lemma_all_delivered(w, victims, steps, now, m, n - 1, v, source, ips);
        let x = victims[n - 1];
        lemma_delivery_frame(steps[n - 1], steps[n], x, now);
        lemma_delivery_keeps(steps[n - 1], steps[n], x, now, v, source, ips);
        lemma_calm_trans(steps[m].out, steps[n - 1].out, steps[n].out);
    }
}

proof fn lemma_first(s: Seq<Seq<u8>>, v: Seq<u8>) -> (i: int)
    requires
        s.contains(v),
    ensures
        0 <= i < s.len(),
        s[i] == v,
        forall|j: int| 0 <= j < i ==> #[trigger] s[j] != v,
    decreases s.len(),
{
    let t = s.drop_last();
    assert(s =~= t.push(s.last()));
    lemma_push_contains(t, s.last(), v);
    if t.contains(v) {
        let i = lemma_first(t, v);
        assert(s[i] == t[i]);
        assert forall|j: int| 0 <= j < i implies #[trigger] s[j] != v by {
            assert(t[j] == s[j]);
        }
        i
    } else {
        assert forall|j: int| 0 <= j < s.len() - 1 implies #[trigger] s[j] != v by {
            assert(t[j] == s[j]);
        }
        s.len() - 1
    }
}

/// What handling an entrusted announcement does for someone it names.
pub proof fn lemma_gossip_for(
    a: World,
    b: World,
    source: Seq<u8>,
    victims: Seq<Seq<u8>>,
    ips: Seq<Seq<char>>,
    now: Moment,
    steps: Seq<World>,
    v: Seq<u8>,
)
    requires
        delivers_all_by(
            gossip_taken(a, source, victims, ips, now.tick),
            b,
            gossip_present(a, source, victims, now.unix),
            steps,
            now.tick,
        ),
        victims.contains(v),
        may_hand_on(a, source, v),
    ensures
        keeps_for(b.net.pending_pushes, v, source),
        !keeps_for(a.net.pending_pushes, v, source) ==> keeps_ips(
            b.net.pending_pushes,
            v,
            source,
            ips,
        ),
        continues(a.out, b.out),
        b.book == a.book,
        b.net == (NetState { pending_pushes: b.net.pending_pushes, ..a.net }),
        !keeps_for(a.net.pending_pushes, v, source) && is_here(a, v, now.unix) && can_seal(
            v,
            push_ip_bytes(source, ips).len(),
        ) ==> is_told(
            a,
            b.out,
            PktType::PushIp,
            FLAG_EPHEMERAL,
            v,
            push_ip_bytes(source, ips),
        ),
{
    let g = gossip_taken(a, source, victims, ips, now.tick);
    let present = gossip_present(a, source, victims, now.unix);
    let n = present.len() as int;
    lemma_gossip_stored(a, source, victims, ips, now.tick, v);
    lemma_gossip_present(a, source, victims, now.unix, v);
    assert(continues(a.out, g.out));
    lemma_all_delivered(g, present, steps, now.tick, 0, n, v, source, ips);
    lemma_continues_trans(a.out, g.out, b.out);
    if !keeps_for(a.net.pending_pushes, v, source) {
        let list = lookup(g.net.pending_pushes, v)->0;
        let e = PushView { source, ips, attempts: 0, next_try: now.tick };
        let j = choose|j: int| 0 <= j < list.len() && #[trigger] list[j] == e;
        assert(keeps_ips(g.net.pending_pushes, v, source, ips));
        if is_here(a, v, now.unix) && can_seal(v, push_ip_bytes(source, ips).len()) {
            let i = lemma_first(present, v);
            lemma_all_delivered(g, present, steps, now.tick, 0, i, v, source, ips);
            lemma_all_delivered(g, present, steps, now.tick, i + 1, n, v, source, ips);
            let other = v.push(0);
            assert(other.len() != v.len());
            assert(present[i] == v);
            assert(lookup(steps[i].net.pending_pushes, v) == Some(list));
            law_pushes_are_delivered(steps[i], steps[i + 1], v, now.tick, other);
            assert(is_due(list[j], v, now.tick));
            assert(is_passed_on(steps[i], steps[i + 1].out, v, list[j]));
            lemma_passed_later(a, steps[i], steps[i + 1].out, b.out, v, e);
        }
    }
}

/// What a friend entrusts to us is kept for each friend of ours that it names,
/// with its addresses where nothing of that friend was kept before; and where
/// the one it is for was seen in the last five minutes, it goes out at once.
pub proof fn law_gossip_is_kept(
    w: World,
    w2: World,
    bytes: Seq<u8>,
    src: AddrView,
    now: Moment,
    r: Result<(), NetError>,
    peer: Me,
    flags: u8,
    seq: u32,
    inner: Seq<u8>,
    victims: Seq<Seq<u8>>,
    ips: Seq<Seq<char>>,
    v: Seq<u8>,
)
    requires
        packet_step(w, w2, bytes, src, now, r),
        taken_for(w.net.me, w.book, bytes, peer, PktType::Gossip, flags, seq, inner),
        gossip_of(inner) == Ok::<(Seq<Seq<u8>>, Seq<Seq<char>>), ProtoError>((victims, ips)),
        victims.contains(v),
        v != w.net.me.ed_pub,
        has_friend(w.book, v),
        id::hex_text(v) != id::hex_text(peer.ed_pub),
    ensures
        r is Ok,
        keeps_for(w2.net.pending_pushes, v, peer.ed_pub),
        !keeps_for(w.net.pending_pushes, v, peer.ed_pub) ==> keeps_ips(
            w2.net.pending_pushes,
            v,
            peer.ed_pub,
            ips,
        ),
        !keeps_for(w.net.pending_pushes, v, peer.ed_pub) && is_here(w, v, now.unix) && can_seal(
            v,
            push_ip_bytes(peer.ed_pub, ips).len(),
        ) ==> is_told(
            w,
            w2.out,
            PktType::PushIp,
            FLAG_EPHEMERAL,
            v,
            push_ip_bytes(peer.ed_pub, ips),
        ),
{
    let p = accepted(w.net.me, w.book, bytes)->Ok_0;
    let who = p.sender_id;
    let ip = ip_port_text(src.ip(), src.port());
    let a = noted_seen(w, who, ip, now);
    lemma_noted(w, who, ip, now, (who, 0));
    lemma_book_of(w.book, who, ip, now.unix, ips, v);
    let b = lemma_handled(w, w2, bytes, src, now, r, p);
    let steps = choose|steps: Seq<World>| #[trigger]
        delivers_all_by(
            gossip_taken(a, who, victims, ips, now.tick),
            b,
            gossip_present(a, who, victims, now.unix),
            steps,
            now.tick,
        );
    assert(may_hand_on(a, who, v));
    lemma_gossip_for(a, b, who, victims, ips, now, steps, v);
    let c = choose|c: World| #[trigger]
        delivers_pushes(b, c, who, now.tick) && w2 == announce_delivered(c, who, src);
    lemma_delivery_frame(b, c, who, now.tick);
    lemma_delivery_keeps(b, c, who, now.tick, v, who, ips);
    assert(continues(c.out, w2.out));
    lemma_continues_trans(b.out, c.out, w2.out);
    let e = PushView { source: who, ips, attempts: 0, next_try: now.tick };
    if is_passed_on(a, b.out, v, e) {
        lemma_passed_later(w, a, b.out, w2.out, v, e);
    }
}

/// The world after an accepted packet was handled, and what followed.
pub proof fn lemma_handled(
    w: World,
    w2: World,
    bytes: Seq<u8>,
    src: AddrView,
    now: Moment,
    r: Result<(), NetError>,
    p: PacketView,
) -> (b: World)
    requires
        packet_step(w, w2, bytes, src, now, r),
        accepted(w.net.me, w.book, bytes) == Ok::<PacketView, NetError>(p),
    ensures
        handles(
            noted_seen(w, p.sender_id, ip_port_text(src.ip(), src.port()), now),
            b,
            p,
            src,
            now,
            r,
        ),
        if r is Ok {
            follows_up(b, w2, p.sender_id, src, now.tick)
        } else {
            w2 == b
        },
{
    let a = noted_seen(w, p.sender_id, ip_port_text(src.ip(), src.port()), now);
    choose|b: World| #[trigger]
        handles(a, b, p, src, now, r) && if r is Ok {
            follows_up(b, w2, p.sender_id, src, now.tick)
        } else {
            w2 == b
        }
}

// ---------- what others pass on to us ----------

/// Addresses of a friend that another one passes on to us are taken in for
/// that friend, and of nobody else anything changes but that the other one was
/// seen; addresses of ourselves or of strangers are ignored.
pub proof fn law_push_is_taken_in(
    w: World,
    w2: World,
    bytes: Seq<u8>,
    src: AddrView,
    now: Moment,
    r: Result<(), NetError>,
    peer: Me,
    flags: u8,
    seq: u32,
    inner: Seq<u8>,
    source: Seq<u8>,
    ips: Seq<Seq<char>>,
    other: Seq<u8>,
)
    requires
        packet_step(w, w2, bytes, src, now, r),
        taken_for(w.net.me, w.book, bytes, peer, PktType::PushIp, flags, seq, inner),
        push_ip_of(inner) == Ok::<(Seq<u8>, Seq<Seq<char>>), ProtoError>((source, ips)),
        id::hex_text(source) != id::hex_text(peer.ed_pub),
        id::hex_text(other) != id::hex_text(peer.ed_pub),
        id::hex_text(other) != id::hex_text(source),
    ensures
        r is Ok,
        friend_of(w2.book, other) == friend_of(w.book, other),
        source == w.net.me.ed_pub || ips.len() == 0 ==> friend_of(w2.book, source) == friend_of(
            w.book,
            source,
        ),
        friend_of(w.book, source) is None ==> friend_of(w2.book, source) is None,
        source != w.net.me.ed_pub && ips.len() > 0 ==> match friend_of(w.book, source) {
            Some(f) => {
                &&& friend_of(w2.book, source) matches Some(f2)
                &&& f2 == (FriendView { ips: f2.ips, ..f })
                &&& took_in(f.ips, ips, f2.ips)
                &&& f2 != f ==> appears(
                    w2.out,
                    w.out.len() as int,
                    OutView::Event(EventView::Status(push_text(source, ips.len()))),
                )
            },
            None => true,
        },
{
    let p = accepted(w.net.me, w.book, bytes)->Ok_0;
    let who = p.sender_id;
    let ip = ip_port_text(src.ip(), src.port());
    let a = noted_seen(w, who, ip, now);
    lemma_noted(w, who, ip, now, (who, 0));
    let b = lemma_packet(w, w2, bytes, src, now, r, p);
    assert(b == told(a, source, ips, now.tick));
    lemma_book_of(w.book, who, ip, now.unix, ips, source);
    lemma_book_of(w.book, who, ip, now.unix, ips, other);
    let book = book_merged(a.book, source, ips);
    let pre = World { book, unsaved: true, ..a };
    lemma_resent(pre, pre.net.failed_sends, source, now.tick);
    lemma_resent_grows(pre, pre.net.failed_sends, source, now.tick);
    if has_friend(a.book, source) {
        let f = friend_of(w.book, source)->0;
        lemma_book_of(a.book, source, ip, now.unix, ips, other);
        lemma_took_in(f.ips, ips);
        if source != w.net.me.ed_pub && ips.len() > 0 && book != a.book {
            let e = OutView::Event(EventView::Status(push_text(source, ips.len())));
            assert(b.out[b.out.len() - 1] == e);
            assert(w2.out[b.out.len() - 1] == e);
        }
    }
}

/// Where addresses that a friend passes on to us are new, the messages that had
/// failed to reach their owner go out to all the addresses then known, and wait
/// for their acknowledgement as if new.
pub proof fn law_push_frees_failed(
    w: World,
    w2: World,
    bytes: Seq<u8>,
    src: AddrView,
    now: Moment,
    r: Result<(), NetError>,
    peer: Me,
    flags: u8,
    number: u32,
    inner: Seq<u8>,
    source: Seq<u8>,
    ips: Seq<Seq<char>>,
    f: FriendView,
    seq: u32,
    m: Seq<u8>,
)
    requires
        packet_step(w, w2, bytes, src, now, r),
        taken_for(w.net.me, w.book, bytes, peer, PktType::PushIp, flags, number, inner),
        push_ip_of(inner) == Ok::<(Seq<u8>, Seq<Seq<char>>), ProtoError>((source, ips)),
        id::hex_text(source) != id::hex_text(peer.ed_pub),
        friend_of(w.book, source) == Some(f),
        distinct_keys(w.net.failed_sends),
        lookup(w.net.failed_sends, (source, seq)) == Some(m),
    ensures
        friend_of(w2.book, source) != Some(f) && has_address(w2, source) ==> is_back(
            World { book: w2.book, ..w },
            w2,
            source,
            seq,
            m,
            now.tick,
        ),
{
    let p = accepted(w.net.me, w.book, bytes)->Ok_0;
    let who = p.sender_id;
    let ip = ip_port_text(src.ip(), src.port());
    let a = noted_seen(w, who, ip, now);
    lemma_noted(w, who, ip, now, (source, seq));
    lemma_noted_distinct(w, who, ip, now);
    let b = lemma_packet(w, w2, bytes, src, now, r, p);
    assert(b == told(a, source, ips, now.tick));
    lemma_book_of(w.book, who, ip, now.unix, ips, source);
    if friend_of(w2.book, source) != Some(f) && has_address(w2, source) {
        let at = World { book: b.book, ..a };
        lemma_has_address(w2, source);
        lemma_has_address(at, source);
        lemma_told_frees(a, source, ips, now.tick, seq, m);
        lemma_reaches_later(World { book: w2.book, ..w }, at, b.out, w2.out, source, m);
    }
}

proof fn lemma_told_frees(
    a: World,
    source: Seq<u8>,
    ips: Seq<Seq<char>>,
    now: u64,
    seq: u32,
    m: Seq<u8>,
)
    requires
        distinct_keys(a.net.failed_sends),
        lookup(a.net.failed_sends, (source, seq)) == Some(m),
        friend_of(told(a, source, ips, now).book, source) != friend_of(a.book, source),
        has_address(World { book: told(a, source, ips, now).book, ..a }, source),
    ensures
        is_back(
            World { book: told(a, source, ips, now).book, ..a },
            told(a, source, ips, now),
            source,
            seq,
            m,
            now,
        ),
{
    let b = told(a, source, ips, now);
    assert(b != a);
    let book = book_merged(a.book, source, ips);
    let pre = World { book, unsaved: true, ..a };
    let t = retried_failed(pre, source, now);
    lemma_resent(pre, pre.net.failed_sends, source, now);
    lemma_resent_grows(pre, pre.net.failed_sends, source, now);
    assert(t.book == book);
    let at = World { book, ..a };
    assert(at == (World { book: b.book, ..a }));
    lemma_has_address(at, source);
    lemma_has_address(pre, source);
    assert(has_address(pre, source));
    let other = (source.push(0), seq);
    assert(other.0.len() != source.len());
    law_failed_go_out(pre, source, now, seq, other);
    lemma_reaches_later(at, pre, t.out, b.out, source, m);
}

/// How many announcements are kept in all.
pub open spec fn kept_in_all(pushes: Seq<(Seq<u8>, Seq<PushView>)>) -> nat
    decreases pushes.len(),
{
    if pushes.len() == 0 {
        0
    } else {
        kept_in_all(pushes.drop_last()) + pushes.last().1.len()
    }
}

proof fn lemma_kept_update(
    pushes: Seq<(Seq<u8>, Seq<PushView>)>,
    i: int,
    e: (Seq<u8>, Seq<PushView>),
)
    requires
        0 <= i < pushes.len(),
    ensures
        kept_in_all(pushes.update(i, e)) + pushes[i].1.len() == kept_in_all(pushes) + e.1.len(),
    decreases pushes.len(),
{
    let u = pushes.update(i, e);
    if i == pushes.len() - 1 {
        assert(u.drop_last() =~= pushes.drop_last());
    } else {
        assert(u.drop_last() =~= pushes.drop_last().update(i, e));
        lemma_kept_update(pushes.drop_last(), i, e);
    }
}

proof fn lemma_kept_stored(
    pushes: Seq<(Seq<u8>, Seq<PushView>)>,
    victim: Seq<u8>,
    source: Seq<u8>,
    ips: Seq<Seq<char>>,
    now: u64,
)
    ensures
        kept_in_all(push_stored(pushes, victim, source, ips, now)) == kept_in_all(pushes)
            + if is_news(pushes, victim, source) {
            1nat
        } else {
            0nat
        },
{
    if is_news(pushes, victim, source) {
        let list = match lookup(pushes, victim) {
            Some(list) => list,
            None => Seq::empty(),
        };
        let e = (victim, list.push(PushView { source, ips, attempts: 0, next_try: now }));
        if has_key(pushes, victim) {
            lemma_key_index(pushes, victim);
            lemma_kept_update(pushes, key_index(pushes, victim), e);
        } else {
            assert(pushes.push(e).drop_last() =~= pushes);
        }
    }
}

proof fn lemma_gossip_count(
    w: World,
    source: Seq<u8>,
    victims: Seq<Seq<u8>>,
    ips: Seq<Seq<char>>,
    now: u64,
)
    ensures
        kept_in_all(gossip_stored(w, source, victims, ips, now)) == kept_in_all(
            w.net.pending_pushes,
        ) + gossip_count(w, source, victims, ips, now),
    decreases victims.len(),
{
    if victims.len() > 0 {
        let t = victims.drop_last();
        lemma_gossip_count(w, source, t, ips, now);
        lemma_kept_stored(gossip_stored(w, source, t, ips, now), victims.last(), source, ips, now);
    }
}

/// What a friend entrusts to us is shown with how many announcements are kept
/// more than before, and not at all where there are none.
pub proof fn law_gossip_is_shown(
    w: World,
    source: Seq<u8>,
    victims: Seq<Seq<u8>>,
    ips: Seq<Seq<char>>,
    now: u64,
)
    ensures
        ({
            let g = gossip_taken(w, source, victims, ips, now);
            let more = kept_in_all(g.net.pending_pushes) - kept_in_all(w.net.pending_pushes);
            &&& more >= 0
            &&& more == 0 ==> g.out == w.out
            &&& more > 0 ==> g.out == w.out.push(
                OutView::Event(EventView::Status(gossip_text(source, more as nat))),
            )
        }),
{
    lemma_gossip_count(w, source, victims, ips, now);
}

proof fn lemma_stored_other(
    w: World,
    source: Seq<u8>,
    victims: Seq<Seq<u8>>,
    ips: Seq<Seq<char>>,
    now: u64,
    v: Seq<u8>,
)
    requires
        !victims.contains(v) || !may_hand_on(w, source, v),
    ensures
        lookup(gossip_stored(w, source, victims, ips, now), v) == lookup(
            w.net.pending_pushes,
            v,
        ),
    decreases victims.len(),
{
    if victims.len() > 0 {
        let t = victims.drop_last();
        let last = victims.last();
        assert forall|i: int| 0 <= i < t.len() implies victims.contains(#[trigger] t[i]) by {
            assert(victims[i] == t[i]);
        }
        assert(victims.contains(last));
        lemma_stored_other(w, source, t, ips, now, v);
        let front = gossip_stored(w, source, t, ips, now);
        if may_hand_on(w, source, last) {
            let list = match lookup(front, last) {
                Some(list) => list,
                None => Seq::empty(),
            };
            let e = list.push(PushView { source, ips, attempts: 0, next_try: now });
            law_table(front, last, e, v);
        }
    }
}

proof fn lemma_delivers_other(w: World, w2: World, victim: Seq<u8>, now: u64, v: Seq<u8>)
    requires
        delivers_pushes(w, w2, victim, now),
        v != victim,
    ensures
        lookup(w2.net.pending_pushes, v) == lookup(w.net.pending_pushes, v),
{
    let packets = choose|packets: Seq<Seq<u8>>|
        are_push_packets(w.net.me, victim, pushes_for(w.net, victim), packets, now) && w2
            == #[trigger] delivered(w, victim, packets, now);
    let list = pushes_for(w.net, victim);
    lemma_pushes_sent_out(w, victim, list, packets, now);
    law_table(w.net.pending_pushes, victim, pushes_bumped(list, victim, now), v);
}

proof fn lemma_delivers_all_other(
    w: World,
    victims: Seq<Seq<u8>>,
    steps: Seq<World>,
    now: u64,
    i: int,
    v: Seq<u8>,
)
    requires
        steps.len() == victims.len() + 1,
        steps[0] == w,
        forall|k: int|
            #![trigger victims[k]]
            0 <= k < victims.len() ==> delivers_pushes(steps[k], steps[k + 1], victims[k], now),
        0 <= i < steps.len(),
        !victims.contains(v),
    ensures
        lookup(steps[i].net.pending_pushes, v) == lookup(w.net.pending_pushes, v),
    decreases i,
{
    if i > 0 {
        lemma_delivers_all_other(w, victims, steps, now, i - 1, v);
        assert(victims.contains(victims[i - 1]));
        lemma_delivers_other(steps[i - 1], steps[i], victims[i - 1], now, v);
    }
}

/// What a friend entrusts to us is kept only for the friends that it names: not
/// for ourselves, not for strangers, and for nobody else.
pub proof fn law_gossip_for_nobody_else(
    w: World,
    w2: World,
    bytes: Seq<u8>,
    src: AddrView,
    now: Moment,
    r: Result<(), NetError>,
    peer: Me,
    flags: u8,
    seq: u32,
    inner: Seq<u8>,
    victims: Seq<Seq<u8>>,
    ips: Seq<Seq<char>>,
    v: Seq<u8>,
)
    requires
        packet_step(w, w2, bytes, src, now, r),
        taken_for(w.net.me, w.book, bytes, peer, PktType::Gossip, flags, seq, inner),
        gossip_of(inner) == Ok::<(Seq<Seq<u8>>, Seq<Seq<char>>), ProtoError>((victims, ips)),
        !victims.contains(v) || v == w.net.me.ed_pub || !has_friend(w.book, v),
        id::hex_text(v) != id::hex_text(peer.ed_pub),
    ensures
        lookup(w2.net.pending_pushes, v) == lookup(w.net.pending_pushes, v),
{
    let p = accepted(w.net.me, w.book, bytes)->Ok_0;
    let who = p.sender_id;
    let ip = ip_port_text(src.ip(), src.port());
    let a = noted_seen(w, who, ip, now);
    lemma_noted(w, who, ip, now, (who, 0));
    lemma_book_of(w.book, who, ip, now.unix, ips, v);
    let b = lemma_handled(w, w2, bytes, src, now, r, p);
    let g = gossip_taken(a, who, victims, ips, now.tick);
    let present = gossip_present(a, who, victims, now.unix);
    let steps = choose|steps: Seq<World>| #[trigger]
        delivers_all_by(g, b, present, steps, now.tick);
    assert(!victims.contains(v) || !may_hand_on(a, who, v));
    lemma_stored_other(a, who, victims, ips, now.tick, v);
    lemma_gossip_present(a, who, victims, now.unix, v);
    lemma_delivers_all_other(g, present, steps, now.tick, steps.len() - 1, v);
    let c = choose|c: World| #[trigger]
        delivers_pushes(b, c, who, now.tick) && w2 == announce_delivered(c, who, src);
    lemma_delivers_other(b, c, who, now.tick, v);
}

/// What a friend entrusts to us is never kept for that friend.
pub proof fn law_gossip_not_back(
    w: World,
    source: Seq<u8>,
    victims: Seq<Seq<u8>>,
    ips: Seq<Seq<char>>,
    now: u64,
)
    ensures
        lookup(gossip_taken(w, source, victims, ips, now).net.pending_pushes, source) == lookup(
            w.net.pending_pushes,
            source,
        ),
{
    lemma_stored_other(w, source, victims, ips, now, source);
}

} // verus!
