//! Handing on the new address of a common friend.
//!
//! A friend whose announcement was not confirmed asks us, by gossip, to tell
//! others. Whoever we tell must be our friend, and what we are told counts
//! only if it is about a friend: addresses are never given to or taken from
//! strangers.

use vstd::prelude::*;

use crate::bytes::same_array;
use crate::crypto::cipher;
use crate::crypto::id;
use crate::net::event::{push_output, EventView, Moment, NetEvent, Output};
use crate::net::node::{
    can_seal, emitted, is_sealed_packet, payload_plain, push_views, reads_honest, retried_failed, sent_to_peer,
    world, Me, NetError, NetState, Network, PendingPush, PushList, PushView, World,
};
use crate::net::packet::{Packet, PacketView, PktType, FLAG_EPHEMERAL};
use crate::net::retransmit::{after, time_after};
use crate::table::{has_key, key_index, lemma_key_index, lookup, put, without};
use crate::proto::addressing::{
    decode_gossip, decode_push_ip, encode_push_ip, gossip_of, keys, push_ip_bytes, push_ip_of,
};
use crate::store::friends::{
    book_merged, friend_of, has_friend, FriendStore, FriendView,
};
use crate::text::{clone_texts, decimal, push_decimal, texts};

verus! {

/// Milliseconds between two pushes of the same address.
pub const PUSH_RETRY_INTERVAL: u64 = 2_000;

/// How often a push is repeated.
pub const PUSH_MAX_RETRIES: u8 = 2;

/// Milliseconds for which a friend that was seen counts as present.
pub const PRESENT_MILLIS: u64 = 300_000;

// ---------- delivering ----------

/// Whether a push is sent at a given time.
pub open spec fn push_due(p: PushView, victim: Seq<u8>, now: u64) -> bool {
    now >= p.next_try && can_seal(victim, push_ip_bytes(p.source, p.ips).len())
}

/// A push that was sent.
pub open spec fn push_bumped(p: PushView, now: u64) -> PushView {
    PushView {
        attempts: if p.attempts < u8::MAX {
            (p.attempts + 1) as u8
        } else {
            u8::MAX
        },
        next_try: after(now, PUSH_RETRY_INTERVAL),
        ..p
    }
}

/// The pushes for a friend after those that are due were sent.
pub open spec fn pushes_bumped(list: Seq<PushView>, victim: Seq<u8>, now: u64) -> Seq<PushView> {
    Seq::new(
        list.len(),
        |i: int|
            if push_due(list[i], victim, now) {
                push_bumped(list[i], now)
            } else {
                list[i]
            },
    )
}

/// Whether `packets[i]` carries push `i` wherever that is due.
pub open spec fn are_push_packets(
    me: Me,
    victim: Seq<u8>,
    list: Seq<PushView>,
    packets: Seq<Seq<u8>>,
    now: u64,
) -> bool {
    &&& packets.len() == list.len()
    &&& forall|i: int|
        0 <= i < packets.len() && push_due(list[i], victim, now) ==> is_sealed_packet(
            me,
            PktType::PushIp,
            FLAG_EPHEMERAL,
            0,
            victim,
            push_ip_bytes(list[i].source, list[i].ips),
            #[trigger] packets[i],
        )
}

/// The world after the pushes that are due were sent.
pub open spec fn pushes_sent(
    w: World,
    victim: Seq<u8>,
    list: Seq<PushView>,
    packets: Seq<Seq<u8>>,
    now: u64,
) -> World
    decreases packets.len(),
{
    if packets.len() == 0 {
        w
    } else {
        let front = pushes_sent(w, victim, list, packets.drop_last(), now);
        if push_due(list[packets.len() - 1], victim, now) {
            sent_to_peer(front, victim, packets.last())
        } else {
            front
        }
    }
}

/// The world after the due pushes for a friend were sent as the given
/// packets.
pub open spec fn delivered(w: World, victim: Seq<u8>, packets: Seq<Seq<u8>>, now: u64) -> World {
    match lookup(w.net.pending_pushes, victim) {
        None => w,
        Some(list) => {
            let s = pushes_sent(w, victim, list, packets, now);
            World {
                net: NetState {
                    pending_pushes: put(
                        s.net.pending_pushes,
                        victim,
                        pushes_bumped(list, victim, now),
                    ),
                    ..s.net
                },
                ..s
            }
        },
    }
}

/// The pushes for a friend, none where there is no entry.
pub open spec fn pushes_for(n: NetState, victim: Seq<u8>) -> Seq<PushView> {
    match lookup(n.pending_pushes, victim) {
        None => Seq::empty(),
        Some(list) => list,
    }
}

/// Whether `w2` is `w` after the due pushes for a friend were sent.
pub open spec fn delivers_pushes(w: World, w2: World, victim: Seq<u8>, now: u64) -> bool {
    exists|packets: Seq<Seq<u8>>|
        are_push_packets(w.net.me, victim, pushes_for(w.net, victim), packets, now) && w2
            == #[trigger] delivered(w, victim, packets, now)
}

/// The pushes that were not repeated often enough.
pub open spec fn pushes_kept(list: Seq<PushView>) -> Seq<PushView>
    decreases list.len(),
{
    if list.len() == 0 {
        list
    } else {
        let front = pushes_kept(list.drop_last());
        if list.last().attempts <= PUSH_MAX_RETRIES {
            front.push(list.last())
        } else {
            front
        }
    }
}

/// The state after the pushes for a friend were cleared up.
pub open spec fn pushes_pruned(n: NetState, victim: Seq<u8>) -> NetState {
    match lookup(n.pending_pushes, victim) {
        None => n,
        Some(list) => {
            let kept = pushes_kept(list);
            NetState {
                pending_pushes: if kept.len() == 0 {
                    without(n.pending_pushes, victim)
                } else {
                    put(n.pending_pushes, victim, kept)
                },
                ..n
            }
        },
    }
}

/// Whether `w2` is `w` after the pushes for one friend were polled.
pub open spec fn polls_pushes_for(w: World, w2: World, victim: Seq<u8>, now: u64) -> bool {
    exists|a: World| #[trigger]
        delivers_pushes(w, a, victim, now) && w2 == (World {
            net: pushes_pruned(a.net, victim),
            ..a
        })
}

/// The keys of a table, in order.
pub open spec fn table_keys<A, B>(s: Seq<(A, B)>) -> Seq<A> {
    Seq::new(s.len(), |i: int| s[i].0)
}

/// Whether `steps` leads from `w` to `w2`, polling the pushes of one friend
/// after the other.
pub open spec fn polls_pushes_by(
    w: World,
    w2: World,
    victims: Seq<Seq<u8>>,
    steps: Seq<World>,
    now: u64,
) -> bool {
    &&& steps.len() == victims.len() + 1
    &&& steps[0] == w
    &&& steps.last() == w2
    &&& forall|i: int|
        #![trigger victims[i]]
        0 <= i < victims.len() ==> polls_pushes_for(steps[i], steps[i + 1], victims[i], now)
}

/// Whether `w2` is `w` after all pushes were polled.
pub open spec fn polls_pushes(w: World, w2: World, now: u64) -> bool {
    exists|steps: Seq<World>| #[trigger]
        polls_pushes_by(w, w2, table_keys(w.net.pending_pushes), steps, now)
}

// ---------- being asked to hand on ----------

/// Whether a friend was seen lately.
pub open spec fn present(book: Seq<FriendView>, who: Seq<u8>, unix: u64) -> bool {
    match friend_of(book, who) {
        Some(f) => f.last_seen matches Some(ts) && unix - ts < PRESENT_MILLIS,
        None => false,
    }
}

/// Whether the new address of `source` is handed on to `victim`: a friend of
/// ours, and neither of us two.
pub open spec fn may_hand_on(w: World, source: Seq<u8>, victim: Seq<u8>) -> bool {
    victim != source && victim != w.net.me.ed_pub && has_friend(w.book, victim)
}

/// Whether an address of `source` is already kept.
pub open spec fn has_source(list: Seq<PushView>, source: Seq<u8>) -> bool {
    exists|i: int| 0 <= i < list.len() && (#[trigger] list[i]).source == source
}

/// The pushes after the address of `source` was kept for `victim`.
pub open spec fn push_stored(
    pushes: Seq<(Seq<u8>, Seq<PushView>)>,
    victim: Seq<u8>,
    source: Seq<u8>,
    ips: Seq<Seq<char>>,
    now: u64,
) -> Seq<(Seq<u8>, Seq<PushView>)> {
    let list = match lookup(pushes, victim) {
        Some(list) => list,
        None => Seq::empty(),
    };
    if has_source(list, source) {
        pushes
    } else {
        put(
            pushes,
            victim,
            list.push(PushView { source, ips, attempts: 0, next_try: now }),
        )
    }
}

/// Whether the address of `source` is news for `victim`.
pub open spec fn is_news(
    pushes: Seq<(Seq<u8>, Seq<PushView>)>,
    victim: Seq<u8>,
    source: Seq<u8>,
) -> bool {
    match lookup(pushes, victim) {
        Some(list) => !has_source(list, source),
        None => true,
    }
}

/// The pushes after gossip from `source` about several victims.
pub open spec fn gossip_stored(
    w: World,
    source: Seq<u8>,
    victims: Seq<Seq<u8>>,
    ips: Seq<Seq<char>>,
    now: u64,
) -> Seq<(Seq<u8>, Seq<PushView>)>
    decreases victims.len(),
{
    if victims.len() == 0 {
        w.net.pending_pushes
    } else {
        let front = gossip_stored(w, source, victims.drop_last(), ips, now);
        if may_hand_on(w, source, victims.last()) {
            push_stored(front, victims.last(), source, ips, now)
        } else {
            front
        }
    }
}

/// For how many victims gossip is news.
pub open spec fn gossip_count(
    w: World,
    source: Seq<u8>,
    victims: Seq<Seq<u8>>,
    ips: Seq<Seq<char>>,
    now: u64,
) -> nat
    decreases victims.len(),
{
    if victims.len() == 0 {
        0
    } else {
        let front = victims.drop_last();
        gossip_count(w, source, front, ips, now) + if may_hand_on(w, source, victims.last())
            && is_news(gossip_stored(w, source, front, ips, now), victims.last(), source) {
            1nat
        } else {
            0nat
        }
    }
}

/// The victims that can be told at once.
pub open spec fn gossip_present(
    w: World,
    source: Seq<u8>,
    victims: Seq<Seq<u8>>,
    unix: u64,
) -> Seq<Seq<u8>>
    decreases victims.len(),
{
    if victims.len() == 0 {
        Seq::empty()
    } else {
        let front = gossip_present(w, source, victims.drop_last(), unix);
        let v = victims.last();
        if may_hand_on(w, source, v) && present(w.book, v, unix) {
            front.push(v)
        } else {
            front
        }
    }
}

/// What is shown when a friend asks us to hand its address on.
pub open spec fn gossip_text(source: Seq<u8>, stored: nat) -> Seq<char> {
    "好友 "@ + id::hex_text(source).take(12) + " 委托我代转新 IP（"@ + decimal(stored) + " 人待转）"@
}

/// The world after gossip was taken in, before anyone is told.
pub open spec fn gossip_taken(
    w: World,
    source: Seq<u8>,
    victims: Seq<Seq<u8>>,
    ips: Seq<Seq<char>>,
    now: u64,
) -> World {
    let stored = gossip_count(w, source, victims, ips, now);
    let a = World {
        net: NetState {
            pending_pushes: gossip_stored(w, source, victims, ips, now),
            ..w.net
        },
        ..w
    };
    if stored > 0 {
        emitted(a, EventView::Status(gossip_text(source, stored)))
    } else {
        a
    }
}

/// Whether `steps` leads from `w` to `w2`, telling one friend after the other.
pub open spec fn delivers_all_by(
    w: World,
    w2: World,
    victims: Seq<Seq<u8>>,
    steps: Seq<World>,
    now: u64,
) -> bool {
    &&& steps.len() == victims.len() + 1
    &&& steps[0] == w
    &&& steps.last() == w2
    &&& forall|i: int|
        #![trigger victims[i]]
        0 <= i < victims.len() ==> delivers_pushes(steps[i], steps[i + 1], victims[i], now)
}

/// What a gossip packet does.
pub open spec fn gossip_step(
    w: World,
    w2: World,
    p: PacketView,
    now: Moment,
    r: Result<(), NetError>,
) -> bool {
    match payload_plain(w.net.me, p) {
        Err(e) => r == Err::<(), NetError>(e) && w2 == w,
        Ok(plain) => match gossip_of(plain) {
            Err(e) => r == Err::<(), NetError>(NetError::Proto(e)) && w2 == w,
            Ok((victims, ips)) => {
                &&& r is Ok
                &&& exists|steps: Seq<World>| #[trigger]
                    delivers_all_by(
                        gossip_taken(w, p.sender_id, victims, ips, now.tick),
                        w2,
                        gossip_present(w, p.sender_id, victims, now.unix),
                        steps,
                        now.tick,
                    )
            },
        },
    }
}

// ---------- being told ----------

/// What is shown when a common friend tells us a new address.
pub open spec fn push_text(source: Seq<u8>, count: nat) -> Seq<char> {
    "经共同好友获得 "@ + id::hex_text(source).take(12) + " 的新 IP（"@ + decimal(count) + " 个）"@
}

/// The world after a common friend told us addresses of `source`, who must be
/// a friend of ours.
pub open spec fn told(w: World, source: Seq<u8>, ips: Seq<Seq<char>>, now: u64) -> World {
    let book = book_merged(w.book, source, ips);
    if source == w.net.me.ed_pub || !has_friend(w.book, source) || ips.len() == 0 || book
        == w.book {
        w
    } else {
        emitted(
            retried_failed(World { book, unsaved: true, ..w }, source, now),
            EventView::Status(push_text(source, ips.len())),
        )
    }
}

/// What a push packet does.
pub open spec fn push_step(
    w: World,
    w2: World,
    p: PacketView,
    now: u64,
    r: Result<(), NetError>,
) -> bool {
    match payload_plain(w.net.me, p) {
        Err(e) => r == Err::<(), NetError>(e) && w2 == w,
        Ok(plain) => match push_ip_of(plain) {
            Err(e) => r == Err::<(), NetError>(NetError::Proto(e)) && w2 == w,
            Ok((source, ips)) => r is Ok && w2 == told(w, source, ips, now),
        },
    }
}

impl Network {
    /// Sends the pushes for a friend that are due.
    pub fn deliver_pending_pushes(
        &mut self,
        friends: &FriendStore,
        victim: &[u8; 32],
        now: u64,
        out: &mut Vec<Output>,
    )
        ensures
            delivers_pushes(
                world(*old(self), *friends, old(out)@),
                world(*final(self), *friends, final(out)@),
                victim@,
                now,
            ),
            final(self).identity == old(self).identity,
            table_keys(final(self)@.pending_pushes) == table_keys(old(self)@.pending_pushes),
    {
        let ghost w = world(*self, *friends, out@);
        let at: usize = self.pending_pushes.find(victim);
        proof {
            lemma_key_index(w.net.pending_pushes, victim@);
        }
        if at >= self.pending_pushes.len() {
            let ghost packets = Seq::<Seq<u8>>::empty();
            assert(w == delivered(w, victim@, packets, now));
            return;
        }
        let ghost list = w.net.pending_pushes[at as int].1;
        let ghost mut packets: Seq<Seq<u8>> = Seq::empty();
        let mut items: Vec<PendingPush> = Vec::new();
        let mut i: usize = 0;
        assert(push_views(items@) =~= pushes_bumped(list, victim@, now).take(0));
        while i < self.pending_pushes.entries[at as usize].1.items.len()
            invariant
                at < self.pending_pushes.entries@.len(),
                list == self.pending_pushes@[at as int].1,
                list == push_views(self.pending_pushes.entries@[at as int].1.items@),
                i <= list.len(),
                packets.len() == i,
                forall|j: int|
                    0 <= j < i && push_due(list[j], victim@, now) ==> is_sealed_packet(
                        w.net.me,
                        PktType::PushIp,
                        FLAG_EPHEMERAL,
                        0,
                        victim@,
                        push_ip_bytes(list[j].source, list[j].ips),
                        #[trigger] packets[j],
                    ),
                w.net.me == self@.me,
                push_views(items@) == pushes_bumped(list, victim@, now).take(i as int),
                world(*self, *friends, out@) == pushes_sent(w, victim@, list, packets, now),
            decreases list.len() - i,
        {
            let mut p = self.pending_pushes.entries[at].1.items[i].clone();
            assert(p@ == list[i as int]);
            let ghost before = push_views(items@);
            let ghost old_packets = packets;
            let mut packet: Option<Vec<u8>> = None;
            if now >= p.next_try {
                packet = self.seal_push(victim, &p.source, &p.ips);
            }
            match packet {
                Some(bytes) => {
                    self.send_to_peer(friends, &bytes, victim, out);
                    p.attempts = p.attempts.saturating_add(1);
                    p.next_try = time_after(now, PUSH_RETRY_INTERVAL);
                    assert(p@ =~= push_bumped(list[i as int], now));
                    proof {
                        packets = packets.push(bytes@);
                    }
                },
                None => {
                    proof {
                        packets = packets.push(Seq::empty());
                    }
                },
            }
            assert(packets.drop_last() =~= old_packets);
            let ghost pv = p@;
            items.push(p);
            assert(push_views(items@) =~= before.push(pv));
            i = i + 1;
            assert(push_views(items@) =~= pushes_bumped(list, victim@, now).take(i as int));
        }
        assert(pushes_bumped(list, victim@, now).take(i as int) =~= pushes_bumped(
            list,
            victim@,
            now,
        ));
        let ghost before = self.pending_pushes@;
        proof {
            lemma_pushes_sent(w, victim@, list, packets, now);
        }
        self.pending_pushes.insert(*victim, PushList { items });
        assert(are_push_packets(w.net.me, victim@, list, packets, now));
        assert(world(*self, *friends, out@) =~= delivered(w, victim@, packets, now));
        assert(table_keys(self@.pending_pushes) =~= table_keys(w.net.pending_pushes));
    }

    /// A push packet, where it can be sealed.
    fn seal_push(&self, victim: &[u8; 32], source: &[u8; 32], ips: &[String]) -> (r: Option<
        Vec<u8>,
    >)
        ensures
            r is Some <==> can_seal(victim@, push_ip_bytes(source@, texts(ips@)).len()),
            r matches Some(b) ==> is_sealed_packet(
                self@.me,
                PktType::PushIp,
                FLAG_EPHEMERAL,
                0,
                victim@,
                push_ip_bytes(source@, texts(ips@)),
                b@,
            ),
    {
        let x = match cipher::ed_pub_to_x25519(victim) {
            Some(x) => x,
            None => {
                return None;
            },
        };
        let inner = encode_push_ip(source, ips);
        match self.seal_packet(PktType::PushIp, FLAG_EPHEMERAL, 0, victim, &x, &inner) {
            Ok(b) => Some(b),
            Err(_) => None,
        }
    }

    /// Repeats the pushes that are due and drops those that were repeated
    /// often enough.
    pub fn poll_pushes(&mut self, friends: &FriendStore, now: u64, out: &mut Vec<Output>)
        ensures
            polls_pushes(
                world(*old(self), *friends, old(out)@),
                world(*final(self), *friends, final(out)@),
                now,
            ),
            final(self).identity == old(self).identity,
    {
        let ghost w = world(*self, *friends, out@);
        let victims = self.push_victims();
        let ghost all = keys(victims@);
        let ghost mut steps: Seq<World> = seq![w];
        let mut i: usize = 0;
        while i < victims.len()
            invariant
                i <= victims@.len(),
                all == keys(victims@),
                steps.len() == i + 1,
                steps[0] == w,
                steps.last() == world(*self, *friends, out@),
                forall|j: int|
                    #![trigger all[j]]
                    0 <= j < i ==> polls_pushes_for(steps[j], steps[j + 1], all[j], now),
                self.identity == old(self).identity,
            decreases victims@.len() - i,
        {
            let ghost before = world(*self, *friends, out@);
            let ghost old_steps = steps;
            self.deliver_pending_pushes(friends, &victims[i], now, out);
            let ghost a = world(*self, *friends, out@);
            self.prune_pushes(&victims[i]);
            proof {
                let next = world(*self, *friends, out@);
                assert(next =~= (World { net: pushes_pruned(a.net, all[i as int]), ..a }));
                assert(delivers_pushes(before, a, all[i as int], now));
                steps = steps.push(next);
                assert forall|j: int| #![trigger all[j]] 0 <= j < i + 1 implies polls_pushes_for(
                    steps[j],
                    steps[j + 1],
                    all[j],
                    now,
                ) by {
                    if j < i {
                        assert(steps[j] == old_steps[j] && steps[j + 1] == old_steps[j + 1]);
                    }
                }
            }
            i = i + 1;
        }
        assert(polls_pushes_by(
            w,
            world(*self, *friends, out@),
            table_keys(w.net.pending_pushes),
            steps,
            now,
        ));
    }

    fn push_victims(&self) -> (r: Vec<[u8; 32]>)
        ensures
            keys(r@) == table_keys(self@.pending_pushes),
    {
        let mut r: Vec<[u8; 32]> = Vec::new();
        let mut i: usize = 0;
        while i < self.pending_pushes.entries.len()
            invariant
                i <= self.pending_pushes.entries@.len(),
                r@.len() == i,
                forall|j: int|
                    0 <= j < i ==> (#[trigger] r@[j])@ == self.pending_pushes.entries@[j].0@,
            decreases self.pending_pushes.entries@.len() - i,
        {
            r.push(self.pending_pushes.entries[i].0);
            i = i + 1;
        }
        assert(keys(r@) =~= table_keys(self@.pending_pushes));
        r
    }

    fn prune_pushes(&mut self, victim: &[u8; 32])
        ensures
            final(self)@ == pushes_pruned(old(self)@, victim@),
            final(self).identity == old(self).identity,
    {
        let ghost n = self@;
        let at: usize = self.pending_pushes.find(victim);
        proof {
            lemma_key_index(n.pending_pushes, victim@);
        }
        if at >= self.pending_pushes.len() {
            return;
        }
        let ghost list = n.pending_pushes[at as int].1;
        let mut items: Vec<PendingPush> = Vec::new();
        let mut i: usize = 0;
        assert(push_views(items@) =~= pushes_kept(list.take(0)));
        while i < self.pending_pushes.entries[at].1.items.len()
            invariant
                at < self.pending_pushes.entries@.len(),
                list == push_views(self.pending_pushes.entries@[at as int].1.items@),
                i <= list.len(),
                push_views(items@) == pushes_kept(list.take(i as int)),
            decreases list.len() - i,
        {
            let ghost before = push_views(items@);
            assert(list.take(i + 1).drop_last() =~= list.take(i as int));
            let p = self.pending_pushes.entries[at].1.items[i].clone();
            assert(p@ == list[i as int]);
            if p.attempts <= PUSH_MAX_RETRIES {
                items.push(p);
                assert(push_views(items@) =~= before.push(list[i as int]));
            }
            i = i + 1;
        }
        assert(list.take(i as int) =~= list);
        if items.len() == 0 {
            let _ = self.pending_pushes.remove(victim);
        } else {
            self.pending_pushes.insert(*victim, PushList { items });
        }
    }

    /// Whether a friend was seen lately.
    pub fn recently_seen(&self, friends: &FriendStore, id: &[u8; 32], unix: u64) -> (r: bool)
        ensures
            r == present(friends@, id@, unix),
    {
        match friends.get(id) {
            Some(f) => match f.last_seen {
                Some(ts) => unix.saturating_sub(ts) < PRESENT_MILLIS,
                None => false,
            },
            None => false,
        }
    }

    /// Keeps the address of `source` for `victim`; returns whether it is news.
    fn store_push(
        &mut self,
        victim: &[u8; 32],
        source: &[u8; 32],
        ips: &[String],
        now: u64,
    ) -> (r: bool)
        ensures
            final(self)@ == (NetState {
                pending_pushes: push_stored(
                    old(self)@.pending_pushes,
                    victim@,
                    source@,
                    texts(ips@),
                    now,
                ),
                ..old(self)@
            }),
            r == is_news(old(self)@.pending_pushes, victim@, source@),
            final(self).identity == old(self).identity,
    {
        let ghost n = self@;
        let at: usize = self.pending_pushes.find(victim);
        proof {
            lemma_key_index(n.pending_pushes, victim@);
        }
        let mut items: Vec<PendingPush> = Vec::new();
        let ghost list = pushes_for(n, victim@);
        if at < self.pending_pushes.len() {
            let mut i: usize = 0;
            assert(push_views(items@) =~= list.take(0));
            while i < self.pending_pushes.entries[at].1.items.len()
                invariant
                    at < self.pending_pushes.entries@.len(),
                    n == self@,
                    n.pending_pushes[at as int].0 == victim@,
                    at == key_index(n.pending_pushes, victim@),
                    has_key(n.pending_pushes, victim@),
                    list == pushes_for(n, victim@),
                    list == push_views(self.pending_pushes.entries@[at as int].1.items@),
                    i <= list.len(),
                    push_views(items@) == list.take(i as int),
                    forall|j: int| 0 <= j < i ==> (#[trigger] list[j]).source != source@,
                    self.identity == old(self).identity,
                    n == old(self)@,
                decreases list.len() - i,
            {
                let ghost before = push_views(items@);
                let p = self.pending_pushes.entries[at].1.items[i].clone();
                assert(p@ == list[i as int]);
                if same_array(&p.source, source) {
                    assert(has_source(list, source@));
                    return false;
                }
                items.push(p);
                assert(push_views(items@) =~= before.push(list[i as int]));
                i = i + 1;
                assert(push_views(items@) =~= list.take(i as int));
            }
            assert(list.take(i as int) =~= list);
        } else {
            assert(push_views(items@) =~= list);
        }
        let p = PendingPush { source: *source, ips: clone_texts(ips), attempts: 0, next_try: now };
        let ghost pv = p@;
        items.push(p);
        assert(push_views(items@) =~= list.push(pv));
        self.pending_pushes.insert(*victim, PushList { items });
        true
    }

    /// Takes in gossip: keeps the sender's new address for those of the
    /// victims that are our friends, and tells those that are present.
    pub fn handle_gossip(
        &mut self,
        friends: &FriendStore,
        p: &Packet,
        now: Moment,
        out: &mut Vec<Output>,
    ) -> (r: Result<(), NetError>)
        ensures
            gossip_step(
                world(*old(self), *friends, old(out)@),
                world(*final(self), *friends, final(out)@),
                p@,
                now,
                r,
            ),
            old(self).identity.wf() ==> reads_honest(old(self)@.me, p@),
            final(self).identity == old(self).identity,
    {
        let plain = match self.open_payload(p) {
            Ok(plain) => plain,
            Err(e) => {
                return Err(e);
            },
        };
        let (victims, ips) = match decode_gossip(&plain) {
            Ok(g) => g,
            Err(e) => {
                return Err(NetError::Proto(e));
            },
        };
        let tell = self.take_gossip(friends, &p.sender_id, &victims, &ips, now, out);
        self.deliver_to_all(friends, &tell, now.tick, out);
        Ok(())
    }

    fn take_gossip(
        &mut self,
        friends: &FriendStore,
        source: &[u8; 32],
        victims: &[[u8; 32]],
        ips: &[String],
        now: Moment,
        out: &mut Vec<Output>,
    ) -> (tell: Vec<[u8; 32]>)
        ensures
            ({
                let w = world(*old(self), *friends, old(out)@);
                let vs = keys(victims@);
                &&& world(*final(self), *friends, final(out)@) == gossip_taken(
                    w,
                    source@,
                    vs,
                    texts(ips@),
                    now.tick,
                )
                &&& keys(tell@) == gossip_present(w, source@, vs, now.unix)
            }),
            final(self).identity == old(self).identity,
    {
        let ghost w = world(*self, *friends, out@);
        let ghost vs = keys(victims@);
        let ghost t = texts(ips@);
        let mut stored: usize = 0;
        let mut tell: Vec<[u8; 32]> = Vec::new();
        let mut i: usize = 0;
        assert(vs.take(0) =~= Seq::<Seq<u8>>::empty());
        assert(keys(tell@) =~= Seq::<Seq<u8>>::empty());
        while i < victims.len()
            invariant
                i <= victims@.len(),
                vs == keys(victims@),
                t == texts(ips@),
                w.book == friends@,
                w.net.me == self@.me,
                stored <= i,
                stored == gossip_count(w, source@, vs.take(i as int), t, now.tick),
                keys(tell@) == gossip_present(w, source@, vs.take(i as int), now.unix),
                world(*self, *friends, out@) == (World {
                    net: NetState {
                        pending_pushes: gossip_stored(
                            w,
                            source@,
                            vs.take(i as int),
                            t,
                            now.tick,
                        ),
                        ..w.net
                    },
                    ..w
                }),
                self.identity == old(self).identity,
            decreases victims@.len() - i,
        {
            let v: [u8; 32] = victims[i];
            assert(vs.take(i + 1).drop_last() =~= vs.take(i as int));
            if !same_array(&v, source) && !same_array(&v, &self.identity.ed_pub)
                && self.is_friend(friends, &v) {
                if self.store_push(&v, source, ips, now.tick) {
                    stored = stored + 1;
                }
                if self.recently_seen(friends, &v, now.unix) {
                    let ghost before = keys(tell@);
                    tell.push(v);
                    assert(keys(tell@) =~= before.push(v@));
                }
            }
            i = i + 1;
        }
        assert(vs.take(i as int) =~= vs);
        if stored > 0 {
            let mut s = "好友 ".to_owned();
            s.append(&id::short(source));
            s.append(" 委托我代转新 IP（");
            push_decimal(&mut s, stored as u64);
            s.append(" 人待转）");
            assert(s@ =~= gossip_text(source@, stored as nat));
            push_output(out, Output::Event(NetEvent::Status(s)));
        }
        tell
    }

    fn deliver_to_all(
        &mut self,
        friends: &FriendStore,
        tell: &[[u8; 32]],
        now: u64,
        out: &mut Vec<Output>,
    )
        ensures
            exists|steps: Seq<World>| #[trigger]
                delivers_all_by(
                    world(*old(self), *friends, old(out)@),
                    world(*final(self), *friends, final(out)@),
                    keys(tell@),
                    steps,
                    now,
                ),
            final(self).identity == old(self).identity,
    {
        let ghost w = world(*self, *friends, out@);
        let ghost all = keys(tell@);
        let ghost mut steps: Seq<World> = seq![w];
        let mut i: usize = 0;
        while i < tell.len()
            invariant
                i <= tell@.len(),
                all == keys(tell@),
                steps.len() == i + 1,
                steps[0] == w,
                steps.last() == world(*self, *friends, out@),
                forall|j: int|
                    #![trigger all[j]]
                    0 <= j < i ==> delivers_pushes(steps[j], steps[j + 1], all[j], now),
                self.identity == old(self).identity,
            decreases tell@.len() - i,
        {
            let ghost old_steps = steps;
            self.deliver_pending_pushes(friends, &tell[i], now, out);
            proof {
                steps = steps.push(world(*self, *friends, out@));
                assert forall|j: int| #![trigger all[j]] 0 <= j < i + 1 implies delivers_pushes(
                    steps[j],
                    steps[j + 1],
                    all[j],
                    now,
                ) by {
                    if j < i {
                        assert(steps[j] == old_steps[j] && steps[j + 1] == old_steps[j + 1]);
                    }
                }
            }
            i = i + 1;
        }
        assert(delivers_all_by(w, world(*self, *friends, out@), all, steps, now));
    }

    /// Takes in the address of a common friend; one of a stranger is ignored.
    pub fn handle_push_ip(
        &mut self,
        friends: &mut FriendStore,
        p: &Packet,
        now: u64,
        out: &mut Vec<Output>,
    ) -> (r: Result<(), NetError>)
        ensures
            push_step(
                world(*old(self), *old(friends), old(out)@),
                world(*final(self), *final(friends), final(out)@),
                p@,
                now,
                r,
            ),
            old(self).identity.wf() ==> reads_honest(old(self)@.me, p@),
            final(self).identity == old(self).identity,
    {
        let ghost w = world(*self, *friends, out@);
        let plain = match self.open_payload(p) {
            Ok(plain) => plain,
            Err(e) => {
                return Err(e);
            },
        };
        let (source, ips) = match decode_push_ip(&plain) {
            Ok(g) => g,
            Err(e) => {
                return Err(NetError::Proto(e));
            },
        };
        if same_array(&source, &self.identity.ed_pub) || !self.is_friend(friends, &source) {
            return Ok(());
        }
        if ips.len() == 0 {
            return Ok(());
        }
        if friends.merge_ips(&source, &ips) {
            assert(world(*self, *friends, out@) =~= (World {
                book: friends@,
                unsaved: true,
                ..w
            }));
            self.retry_failed_for(friends, &source, now, out);
            let mut s = "经共同好友获得 ".to_owned();
            s.append(&id::short(&source));
            s.append(" 的新 IP（");
            push_decimal(&mut s, ips.len() as u64);
            s.append(" 个）");
            assert(s@ =~= push_text(source@, ips@.len()));
            let ghost a = world(*self, *friends, out@);
            push_output(out, Output::Event(NetEvent::Status(s)));
            assert(world(*self, *friends, out@) =~= emitted(
                a,
                EventView::Status(push_text(source@, ips@.len())),
            ));
        }
        Ok(())
    }
}

/// Sending pushes changes nothing but the outputs.
proof fn lemma_pushes_sent(
    w: World,
    victim: Seq<u8>,
    list: Seq<PushView>,
    packets: Seq<Seq<u8>>,
    now: u64,
)
    ensures
        pushes_sent(w, victim, list, packets, now).net == w.net,
        pushes_sent(w, victim, list, packets, now).book == w.book,
        pushes_sent(w, victim, list, packets, now).unsaved == w.unsaved,
    decreases packets.len(),
{
    if packets.len() > 0 {
        lemma_pushes_sent(w, victim, list, packets.drop_last(), now);
    }
}

} // verus!
