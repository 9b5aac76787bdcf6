//! Telling friends our address.
//!
//! A probe carries our addresses to every friend and asks for confirmation.
//! A friend that does not confirm is mentioned in gossip to the others, and
//! gets the announcement again when it next shows itself.

use vstd::prelude::*;

use crate::bytes::{be64, copy_of};
use crate::crypto::cipher;
use crate::crypto::id;
use crate::crypto::primitives;
use crate::net::event::{push_output, EventView, Moment, NetEvent, Output};
use crate::net::ip::{format_ip, ip_port_text, ip_text, AddrView, IpAddr, IpView, SocketAddr};
use crate::net::node::{
    emitted, is_sealed_packet, payload_plain, plain_packet, reads_honest, retried_failed, sent_to,
    sent_to_peer, world, AnnounceView, NetError, NetState, Network, PendingAnnounce, PendingProbe,
    ProbeView, World,
};
use crate::net::packet::{Packet, PacketView, PktType, FLAG_ACK, FLAG_EPHEMERAL};
use crate::net::retransmit::{after, time_after};
use crate::net::rounds::{
    all_friend_keys, are_sealed_for, bytes_of, friend_keys, keys_but, lemma_peers_sent,
    other_friend_keys, peers_of, peers_sent, sealable, Addressed,
};
use crate::net::socket::{filter_reachable, fmt_addr, fmt_ip_port, reachable};
use crate::table::{lookup, put, without};
use crate::proto::addressing::{
    decode_ip_changed, decode_ip_changed_ack, encode_gossip, encode_ip_changed,
    encode_ip_changed_ack, gossip_bytes, ip_changed_ack_of, ip_changed_bytes, ip_changed_of, keys,
};
use crate::store::friends::{book_merged, book_seen, FriendStore};
use crate::text::{decimal, opt_text, push_decimal, same_text, texts};

verus! {

/// Milliseconds between two transmissions of a probe.
pub const PROBE_RETRY_INTERVAL: u64 = 10_000;

/// How often a probe is repeated.
pub const PROBE_MAX_RETRIES: u32 = 2;

/// Milliseconds between two looks at the local address.
pub const LOCAL_IP_CHECK_INTERVAL: u64 = 30_000;

// ---------- our addresses ----------

/// The addresses of this machine, as far as they could be found.
#[derive(Clone, Copy)]
pub struct LocalIps {
    pub ip: Option<IpAddr>,
    pub ipv6: Option<IpAddr>,
}

/// The contents of an optional address.
pub open spec fn opt_ip(ip: Option<IpAddr>) -> Option<IpView> {
    match ip {
        Some(a) => Some(a@),
        None => None,
    }
}

/// The IPv6 address that changes are looked for in: a reachable one.
pub open spec fn watched_ipv6(ip: Option<IpView>) -> Option<Seq<char>> {
    match ip {
        Some(a) => if reachable(a) {
            Some(ip_text(a))
        } else {
            None
        },
        None => None,
    }
}

/// The IPv6 address that changes are looked for in.
pub fn local_ipv6(ip: Option<IpAddr>) -> (r: Option<String>)
    ensures
        opt_text(r) == watched_ipv6(opt_ip(ip)),
{
    match ip {
        Some(a) => if filter_reachable(a) {
            Some(format_ip(&a))
        } else {
            None
        },
        None => None,
    }
}

/// One address with the port, if it is reachable.
pub open spec fn announced_one(ip: Option<IpView>, port: u16) -> Seq<Seq<char>> {
    match ip {
        Some(a) => if reachable(a) {
            seq![ip_port_text(a, port)]
        } else {
            Seq::empty()
        },
        None => Seq::empty(),
    }
}

/// The addresses that are announced, all with our port: the stable one alone
/// if there is one, else the reachable local ones.
pub open spec fn announced(
    stable: Option<Seq<char>>,
    port: u16,
    ip: Option<IpView>,
    ipv6: Option<IpView>,
) -> Seq<Seq<char>> {
    match stable {
        Some(s) => seq![s + seq![':'] + decimal(port as nat)],
        None => announced_one(ip, port) + announced_one(ipv6, port),
    }
}

/// The addresses that are announced.
pub fn local_announce(stable_ipv4: Option<&str>, port: u16, local: LocalIps) -> (r: Vec<String>)
    ensures
        texts(r@) == announced(
            crate::store::friends::ip_view(stable_ipv4),
            port,
            opt_ip(local.ip),
            opt_ip(local.ipv6),
        ),
{
    let mut out: Vec<String> = Vec::new();
    match stable_ipv4 {
        Some(s) => {
            let mut t = s.to_owned();
            t.push(':');
            push_decimal(&mut t, port as u64);
            assert(t@ =~= s@ + seq![':'] + decimal(port as nat));
            let ghost tv = t@;
            out.push(t);
            assert(texts(out@) =~= seq![tv]);
        },
        None => {
            assert(texts(out@) =~= Seq::<Seq<char>>::empty());
            push_announced(&mut out, local.ip, port);
            push_announced(&mut out, local.ipv6, port);
            assert(texts(out@) =~= announced_one(opt_ip(local.ip), port) + announced_one(
                opt_ip(local.ipv6),
                port,
            ));
        },
    }
    out
}

fn push_announced(out: &mut Vec<String>, ip: Option<IpAddr>, port: u16)
    ensures
        texts(final(out)@) == texts(old(out)@) + announced_one(opt_ip(ip), port),
{
    let ghost before = texts(out@);
    match ip {
        Some(a) => {
            if filter_reachable(a) {
                let s = fmt_ip_port(a, port);
                let ghost sv = s@;
                out.push(s);
                assert(texts(out@) =~= before + seq![sv]);
                return;
            }
        },
        None => {},
    }
    assert(texts(out@) =~= before + Seq::<Seq<char>>::empty());
}

/// What a node announces.
pub open spec fn announces(n: NetState, local: LocalIps) -> Seq<Seq<char>> {
    announced(n.stable_ipv4, n.port, opt_ip(local.ip), opt_ip(local.ipv6))
}

/// Whether a look at the local address is due.
pub open spec fn check_due(n: NetState, now: u64) -> bool {
    n.stable_ipv4 is None && now >= n.next_local_ip_check
}

/// The state after a look at the local address.
pub open spec fn address_checked(n: NetState, now: u64, local: LocalIps) -> NetState {
    if check_due(n, now) {
        NetState {
            next_local_ip_check: after(now, LOCAL_IP_CHECK_INTERVAL),
            last_local_ipv6: watched_ipv6(opt_ip(local.ipv6)),
            ..n
        }
    } else {
        n
    }
}

/// Whether a look at the local address finds it changed.
pub open spec fn address_changed(n: NetState, now: u64, local: LocalIps) -> bool {
    check_due(n, now) && n.last_local_ipv6 != watched_ipv6(opt_ip(local.ipv6))
}

// ---------- probes ----------

/// The probes after new ones were sent.
pub open spec fn probes_set(
    probes: Seq<(Seq<u8>, ProbeView)>,
    peers: Seq<Seq<u8>>,
    packets: Seq<Seq<u8>>,
    probe_id: u64,
    now: u64,
) -> Seq<(Seq<u8>, ProbeView)>
    decreases packets.len(),
{
    if packets.len() == 0 {
        probes
    } else {
        put(
            probes_set(probes, peers, packets.drop_last(), probe_id, now),
            peers[packets.len() - 1],
            ProbeView {
                bytes: packets.last(),
                probe_id,
                attempts: 0,
                next_try: after(now, PROBE_RETRY_INTERVAL),
            },
        )
    }
}

/// What is shown when our address was announced.
pub open spec fn announced_text(count: nat) -> Seq<char> {
    "已向 "@ + decimal(count) + " 位好友通告当前地址"@
}

/// The world after probes were sent as the given packets.
pub open spec fn probes_sent(
    w: World,
    peers: Seq<Seq<u8>>,
    packets: Seq<Seq<u8>>,
    probe_id: u64,
    now: u64,
) -> World {
    let s = peers_sent(w, peers, packets);
    let a = World {
        net: NetState {
            ip_probes: probes_set(s.net.ip_probes, peers, packets, probe_id, now),
            ..s.net
        },
        ..s
    };
    if peers.len() > 0 {
        emitted(a, EventView::Status(announced_text(peers.len())))
    } else {
        a
    }
}

/// The friends that a probe with some addresses is sent to.
pub open spec fn probed(w: World, ips: Seq<Seq<char>>, probe_id: u64) -> Seq<Seq<u8>> {
    sealable(friend_keys(w.book), ip_changed_bytes(probe_id, ips).len())
}

/// Whether packets carry a probe to all friends.
pub open spec fn are_probes(
    w: World,
    ips: Seq<Seq<char>>,
    probe_id: u64,
    packets: Seq<Seq<u8>>,
) -> bool {
    are_sealed_for(
        w.net.me,
        PktType::IpChanged,
        FLAG_EPHEMERAL,
        probed(w, ips, probe_id),
        ip_changed_bytes(probe_id, ips),
        packets,
    )
}

/// Whether `w2` is `w` after our addresses were announced to all friends.
pub open spec fn announces_ips(w: World, w2: World, local: LocalIps, now: u64) -> bool {
    let ips = announces(w.net, local);
    if ips.len() == 0 {
        w2 == w
    } else {
        exists|probe_id: u64, packets: Seq<Seq<u8>>| #[trigger]
            are_probes(w, ips, probe_id, packets) && w2 == probes_sent(
                w,
                probed(w, ips, probe_id),
                packets,
                probe_id,
                now,
            )
    }
}

/// Whether a probe is due for another transmission.
pub open spec fn probe_due(p: ProbeView, now: u64) -> bool {
    now >= p.next_try && p.attempts < PROBE_MAX_RETRIES
}

/// Whether a probe was repeated often enough.
pub open spec fn probe_over(p: ProbeView, now: u64) -> bool {
    now >= p.next_try && p.attempts >= PROBE_MAX_RETRIES
}

/// A probe that was repeated.
pub open spec fn probe_bumped(p: ProbeView, now: u64) -> ProbeView {
    ProbeView {
        attempts: (p.attempts + 1) as u32,
        next_try: after(now, PROBE_RETRY_INTERVAL),
        ..p
    }
}

/// The probes after those that are due were counted up.
pub open spec fn probes_bumped(
    probes: Seq<(Seq<u8>, ProbeView)>,
    now: u64,
) -> Seq<(Seq<u8>, ProbeView)> {
    Seq::new(
        probes.len(),
        |i: int|
            if probe_due(probes[i].1, now) {
                (probes[i].0, probe_bumped(probes[i].1, now))
            } else {
                probes[i]
            },
    )
}

/// The world after the probes that are due were repeated.
pub open spec fn probes_repeated(w: World, probes: Seq<(Seq<u8>, ProbeView)>, now: u64) -> World
    decreases probes.len(),
{
    if probes.len() == 0 {
        w
    } else {
        let front = probes_repeated(w, probes.drop_last(), now);
        let (peer, p) = probes.last();
        if probe_due(p, now) {
            sent_to_peer(front, peer, p.bytes)
        } else {
            front
        }
    }
}

/// The probes that were repeated often enough.
pub open spec fn probes_over(
    probes: Seq<(Seq<u8>, ProbeView)>,
    now: u64,
) -> Seq<(Seq<u8>, ProbeView)>
    decreases probes.len(),
{
    if probes.len() == 0 {
        probes
    } else {
        let front = probes_over(probes.drop_last(), now);
        if probe_over(probes.last().1, now) {
            front.push(probes.last())
        } else {
            front
        }
    }
}

/// What is shown when a friend does not confirm our address.
pub open spec fn unconfirmed_text(victim: Seq<u8>) -> Seq<char> {
    "好友 "@ + id::hex_text(victim).take(12) + " 未确认新 IP，已向共同好友广播"@
}

/// The world after a probe was given up, before the gossip.
pub open spec fn probe_given_up(w: World, victim: Seq<u8>, p: ProbeView) -> World {
    emitted(
        World {
            net: NetState {
                ip_probes: without(w.net.ip_probes, victim),
                pending_announce: put(
                    w.net.pending_announce,
                    victim,
                    AnnounceView { bytes: p.bytes, probe_id: p.probe_id },
                ),
                ..w.net
            },
            ..w
        },
        EventView::Status(unconfirmed_text(victim)),
    )
}

/// Whether `w2` is `w` after gossip about a friend went to all others.
pub open spec fn gossips(w: World, w2: World, victim: Seq<u8>, local: LocalIps) -> bool {
    let inner = gossip_bytes(seq![victim], announces(w.net, local));
    let peers = sealable(keys_but(friend_keys(w.book), victim), inner.len());
    exists|packets: Seq<Seq<u8>>|
        are_sealed_for(w.net.me, PktType::Gossip, FLAG_EPHEMERAL, peers, inner, packets) && w2
            == #[trigger] peers_sent(w, peers, packets)
}

/// Whether step `i` gives up probe `i` and gossips about it.
pub open spec fn gives_up_at(
    steps: Seq<World>,
    over: Seq<(Seq<u8>, ProbeView)>,
    i: int,
    local: LocalIps,
) -> bool {
    gossips(probe_given_up(steps[i], over[i].0, over[i].1), steps[i + 1], over[i].0, local)
}

/// Whether `steps` leads from `w` to `w2`, giving up one probe after the
/// other.
pub open spec fn gives_up_by(
    w: World,
    w2: World,
    over: Seq<(Seq<u8>, ProbeView)>,
    steps: Seq<World>,
    local: LocalIps,
) -> bool {
    &&& steps.len() == over.len() + 1
    &&& steps[0] == w
    &&& steps.last() == w2
    &&& forall|i: int| 0 <= i < over.len() ==> #[trigger] gives_up_at(steps, over, i, local)
}

/// The world after the probes that are due were repeated and counted up.
pub open spec fn probes_polled(w: World, now: u64) -> World {
    let s = probes_repeated(w, w.net.ip_probes, now);
    World {
        net: NetState { ip_probes: probes_bumped(w.net.ip_probes, now), ..s.net },
        ..s
    }
}

/// Whether `w2` is `w` after all probes were polled.
pub open spec fn polls_probes(w: World, w2: World, now: u64, local: LocalIps) -> bool {
    exists|steps: Seq<World>| #[trigger]
        gives_up_by(
            probes_polled(w, now),
            w2,
            probes_over(w.net.ip_probes, now),
            steps,
            local,
        )
}

// ---------- being told ----------

/// What is shown when a friend announces its address.
pub open spec fn friend_moved_text(peer: Seq<u8>) -> Seq<char> {
    "好友 "@ + id::hex_text(peer).take(12) + " 通知了新 IP，已确认"@
}

/// The world after a friend's announcement was taken in: where it came from,
/// and what it says.
pub open spec fn moved(
    w: World,
    peer: Seq<u8>,
    src: AddrView,
    ips: Seq<Seq<char>>,
    now: Moment,
) -> World {
    let seen = book_seen(w.book, peer, Some(ip_port_text(src.ip(), src.port())), now.unix);
    let book = if ips.len() == 0 {
        seen
    } else {
        book_merged(seen, peer, ips)
    };
    if seen == w.book && book == seen {
        w
    } else {
        retried_failed(World { book, unsaved: true, ..w }, peer, now.tick)
    }
}

/// Whether `w2` is `w` after an announcement was confirmed.
pub open spec fn confirms(w: World, w2: World, peer: Seq<u8>, probe_id: u64, src: AddrView) -> bool {
    exists|bytes: Seq<u8>|
        is_sealed_packet(
            w.net.me,
            PktType::IpChangedAck,
            FLAG_ACK,
            0,
            peer,
            be64(probe_id),
            bytes,
        ) && w2 == emitted(
            #[trigger] sent_to(w, src, bytes),
            EventView::Status(friend_moved_text(peer)),
        )
}

/// What a probe packet does.
pub open spec fn ip_changed_step(
    w: World,
    w2: World,
    p: PacketView,
    src: AddrView,
    now: Moment,
    r: Result<(), NetError>,
) -> bool {
    match payload_plain(w.net.me, p) {
        Err(e) => r == Err::<(), NetError>(e) && w2 == w,
        Ok(plain) => match ip_changed_of(plain) {
            Err(e) => r == Err::<(), NetError>(NetError::Proto(e)) && w2 == w,
            Ok((probe_id, ips)) => r is Ok && confirms(
                moved(w, p.sender_id, src, ips, now),
                w2,
                p.sender_id,
                probe_id,
                src,
            ),
        },
    }
}

/// The state after a friend confirmed a probe.
pub open spec fn confirmed(n: NetState, peer: Seq<u8>, probe_id: u64) -> NetState {
    NetState {
        ip_probes: without(n.ip_probes, peer),
        pending_announce: match lookup(n.pending_announce, peer) {
            Some(a) => if a.probe_id == probe_id {
                without(n.pending_announce, peer)
            } else {
                n.pending_announce
            },
            None => n.pending_announce,
        },
        ..n
    }
}

/// What a probe confirmation does.
pub open spec fn ip_changed_ack_step(
    n: NetState,
    n2: NetState,
    p: PacketView,
    r: Result<(), NetError>,
) -> bool {
    match payload_plain(n.me, p) {
        Err(e) => r == Err::<(), NetError>(e) && n2 == n,
        Ok(plain) => match ip_changed_ack_of(plain) {
            Err(e) => r == Err::<(), NetError>(NetError::Proto(e)) && n2 == n,
            Ok(probe_id) => r is Ok && n2 == confirmed(n, p.sender_id, probe_id),
        },
    }
}

/// The world after a friend that shows itself was sent the announcement that
/// it did not confirm.
pub open spec fn announce_delivered(w: World, peer: Seq<u8>, src: AddrView) -> World {
    match lookup(w.net.pending_announce, peer) {
        Some(a) => sent_to(w, src, a.bytes),
        None => w,
    }
}

// ---------- going online ----------

/// The world after pings to the given peers.
pub open spec fn pinged(w: World, peers: Seq<Seq<u8>>) -> World
    decreases peers.len(),
{
    if peers.len() == 0 {
        w
    } else {
        sent_to_peer(
            pinged(w, peers.drop_last()),
            peers.last(),
            plain_packet(w.net.me, PktType::Ping, peers.last(), Seq::empty()),
        )
    }
}

/// What is shown after the pings.
pub open spec fn pinged_text(count: nat) -> Seq<char> {
    "已向 "@ + decimal(count) + " 位好友发送连通性探测（仅好友，不广播）"@
}

/// The world after all friends were pinged.
pub open spec fn started_up(w: World) -> World {
    let peers = friend_keys(w.book);
    if peers.len() > 0 {
        emitted(pinged(w, peers), EventView::Status(pinged_text(peers.len())))
    } else {
        w
    }
}

impl Network {
    /// Pings all friends.
    pub fn startup_ping(&self, friends: &FriendStore, out: &mut Vec<Output>)
        ensures
            world(*self, *friends, final(out)@) == started_up(
                world(*self, *friends, old(out)@),
            ),
    {
        let ghost w = world(*self, *friends, out@);
        let peers = all_friend_keys(friends);
        let ghost all = keys(peers@);
        let mut i: usize = 0;
        assert(all.take(0) =~= Seq::<Seq<u8>>::empty());
        while i < peers.len()
            invariant
                i <= peers@.len(),
                all == keys(peers@),
                w.net.me == self@.me,
                world(*self, *friends, out@) == pinged(w, all.take(i as int)),
            decreases peers@.len() - i,
        {
            assert(all.take(i + 1).drop_last() =~= all.take(i as int));
            let payload: Vec<u8> = Vec::new();
            let bytes = self.build_simple(PktType::Ping, &peers[i], payload);
            self.send_to_peer(friends, &bytes, &peers[i], out);
            i = i + 1;
        }
        assert(all.take(i as int) =~= all);
        if peers.len() > 0 {
            let mut s = "已向 ".to_owned();
            push_decimal(&mut s, peers.len() as u64);
            s.append(" 位好友发送连通性探测（仅好友，不广播）");
            assert(s@ =~= pinged_text(all.len()));
            let ghost a = world(*self, *friends, out@);
            push_output(out, Output::Event(NetEvent::Status(s)));
            assert(world(*self, *friends, out@) =~= emitted(
                a,
                EventView::Status(pinged_text(all.len())),
            ));
        }
    }

    /// Whether the next step looks at the addresses of this machine.
    pub fn wants_local_ips(&self, now: u64) -> (r: bool)
        ensures
            r == (check_due(self@, now) || self@.ip_probes.len() > 0),
    {
        (self.stable_ipv4.is_none() && now >= self.next_local_ip_check) || self.ip_probes.len() > 0
    }

    /// Looks at the local address when that is due; returns whether it
    /// changed. With a stable address it is never looked at.
    pub fn detect_local_ip_change(&mut self, now: u64, local: LocalIps) -> (r: bool)
        ensures
            final(self)@ == address_checked(old(self)@, now, local),
            r == address_changed(old(self)@, now, local),
            final(self).identity == old(self).identity,
    {
        if self.stable_ipv4.is_some() {
            return false;
        }
        if now < self.next_local_ip_check {
            return false;
        }
        self.next_local_ip_check = time_after(now, LOCAL_IP_CHECK_INTERVAL);
        let cur = local_ipv6(local.ipv6);
        let same = match (&self.last_local_ipv6, &cur) {
            (Some(a), Some(b)) => same_text(a, b),
            (None, None) => true,
            _ => false,
        };
        self.last_local_ipv6 = cur;
        !same
    }

    fn announcement(&self, local: LocalIps) -> (r: Vec<String>)
        ensures
            texts(r@) == announces(self@, local),
    {
        match &self.stable_ipv4 {
            Some(s) => local_announce(Some(s.as_str()), self.port, local),
            None => local_announce(None, self.port, local),
        }
    }

    /// Announces our addresses to all friends, who are asked to confirm.
    pub fn announce_ips(
        &mut self,
        friends: &FriendStore,
        local: LocalIps,
        now: u64,
        out: &mut Vec<Output>,
    )
        ensures
            announces_ips(
                world(*old(self), *friends, old(out)@),
                world(*final(self), *friends, final(out)@),
                local,
                now,
            ),
            final(self).identity == old(self).identity,
    {
        let ghost w = world(*self, *friends, out@);
        let ips = self.announcement(local);
        if ips.len() == 0 {
            return;
        }
        let probe_id: u64 = primitives::random_u64();
        let inner = encode_ip_changed(probe_id, &ips);
        let peers = all_friend_keys(friends);
        let sent = self.send_round(
            friends,
            PktType::IpChanged,
            FLAG_EPHEMERAL,
            &peers,
            &inner,
            out,
        );
        let ghost to = peers_of(sent@);
        let ghost packets = bytes_of(sent@);
        proof {
            lemma_peers_sent(w, to, packets);
        }
        self.set_probes(&sent, probe_id, now);
        if sent.len() > 0 {
            let mut s = "已向 ".to_owned();
            push_decimal(&mut s, sent.len() as u64);
            s.append(" 位好友通告当前地址");
            assert(s@ =~= announced_text(to.len()));
            push_output(out, Output::Event(NetEvent::Status(s)));
        }
        assert(are_probes(w, texts(ips@), probe_id, packets));
        assert(world(*self, *friends, out@) =~= probes_sent(w, to, packets, probe_id, now));
    }

    fn set_probes(&mut self, sent: &[Addressed], probe_id: u64, now: u64)
        ensures
            final(self)@ == (NetState {
                ip_probes: probes_set(
                    old(self)@.ip_probes,
                    peers_of(sent@),
                    bytes_of(sent@),
                    probe_id,
                    now,
                ),
                ..old(self)@
            }),
            final(self).identity == old(self).identity,
    {
        let ghost n = self@;
        let ghost to = peers_of(sent@);
        let ghost packets = bytes_of(sent@);
        let mut i: usize = 0;
        assert(packets.take(0) =~= Seq::<Seq<u8>>::empty());
        while i < sent.len()
            invariant
                i <= sent@.len(),
                to == peers_of(sent@),
                packets == bytes_of(sent@),
                self@ == (NetState {
                    ip_probes: probes_set(n.ip_probes, to, packets.take(i as int), probe_id, now),
                    ..n
                }),
                self.identity == old(self).identity,
            decreases sent@.len() - i,
        {
            assert(packets.take(i + 1).drop_last() =~= packets.take(i as int));
            self.ip_probes.insert(
                sent[i].peer,
                PendingProbe {
                    bytes: copy_of(&sent[i].bytes),
                    probe_id,
                    attempts: 0,
                    next_try: time_after(now, PROBE_RETRY_INTERVAL),
                },
            );
            i = i + 1;
        }
        assert(packets.take(i as int) =~= packets);
    }

    /// Repeats probes that are due; one that was repeated often enough is
    /// given up, kept for later, and gossiped about.
    pub fn poll_probes(
        &mut self,
        friends: &FriendStore,
        now: u64,
        local: LocalIps,
        out: &mut Vec<Output>,
    )
        ensures
            polls_probes(
                world(*old(self), *friends, old(out)@),
                world(*final(self), *friends, final(out)@),
                now,
                local,
            ),
            final(self).identity == old(self).identity,
    {
        let over = self.repeat_probes(friends, now, out);
        self.give_up_probes(friends, &over, local, out);
    }

    fn repeat_probes(&mut self, friends: &FriendStore, now: u64, out: &mut Vec<Output>) -> (over:
        Vec<([u8; 32], PendingProbe)>)
        ensures
            world(*final(self), *friends, final(out)@) == probes_polled(
                world(*old(self), *friends, old(out)@),
                now,
            ),
            probe_views(over@) == probes_over(old(self)@.ip_probes, now),
            final(self).identity == old(self).identity,
    {
        let ghost w = world(*self, *friends, out@);
        let ghost all = self.ip_probes@;
        let mut over: Vec<([u8; 32], PendingProbe)> = Vec::new();
        let mut i: usize = 0;
        assert(all.take(0) =~= Seq::<(Seq<u8>, ProbeView)>::empty());
        assert(probe_views(over@) =~= probes_over(all.take(0), now));
        while i < self.ip_probes.entries.len()
            invariant
                i <= all.len(),
                all.len() == self.ip_probes.entries@.len(),
                all == w.net.ip_probes,
                forall|j: int|
                    0 <= j < i ==> (#[trigger] self.ip_probes@[j]) == probes_bumped(all, now)[j],
                forall|j: int| i <= j < all.len() ==> (#[trigger] self.ip_probes@[j]) == all[j],
                probe_views(over@) == probes_over(all.take(i as int), now),
                ({
                    let s = probes_repeated(w, all.take(i as int), now);
                    world(*self, *friends, out@) == (World {
                        net: NetState { ip_probes: self.ip_probes@, ..s.net },
                        ..s
                    })
                }),
                self.identity == old(self).identity,
            decreases all.len() - i,
        {
            assert(all.take(i + 1).drop_last() =~= all.take(i as int));
            assert(self.ip_probes@[i as int] == all[i as int]);
            let ghost before = self.ip_probes@;
            let ghost cur = world(*self, *friends, out@);
            let peer: [u8; 32] = self.ip_probes.entries[i].0;
            if now >= self.ip_probes.entries[i].1.next_try {
                let bytes = copy_of(&self.ip_probes.entries[i].1.bytes);
                let probe_id: u64 = self.ip_probes.entries[i].1.probe_id;
                let attempts: u32 = self.ip_probes.entries[i].1.attempts;
                if attempts >= PROBE_MAX_RETRIES {
                    let p = PendingProbe {
                        bytes,
                        probe_id,
                        attempts,
                        next_try: self.ip_probes.entries[i].1.next_try,
                    };
                    assert(p@ =~= all[i as int].1);
                    let ghost views = probe_views(over@);
                    over.push((peer, p));
                    assert(probe_views(over@) =~= views.push(all[i as int]));
                } else {
                    self.send_to_peer(friends, &bytes, &peer, out);
                    let p = PendingProbe {
                        bytes,
                        probe_id,
                        attempts: attempts + 1,
                        next_try: time_after(now, PROBE_RETRY_INTERVAL),
                    };
                    assert(p@ =~= probe_bumped(all[i as int].1, now));
                    let ghost pv = p@;
                    self.ip_probes.entries[i] = (peer, p);
                    assert(self.ip_probes@ =~= before.update(i as int, (peer@, pv)));
                }
            }
            assert forall|j: int| 0 <= j < i + 1 implies (#[trigger] self.ip_probes@[j])
                == probes_bumped(all, now)[j] by {
                if j < i {
                    assert(self.ip_probes@[j] == before[j]);
                }
            }
            assert forall|j: int| i + 1 <= j < all.len() implies (#[trigger] self.ip_probes@[j])
                == all[j] by {
                assert(self.ip_probes@[j] == before[j]);
            }
            proof {
                let s = probes_repeated(w, all.take(i + 1), now);
                assert(world(*self, *friends, out@) =~= (World {
                    net: NetState { ip_probes: self.ip_probes@, ..s.net },
                    ..s
                }));
            }
            i = i + 1;
        }
        assert(all.take(i as int) =~= all);
        assert(self.ip_probes@ =~= probes_bumped(all, now));
        over
    }

    fn give_up_probes(
        &mut self,
        friends: &FriendStore,
        over: &[([u8; 32], PendingProbe)],
        local: LocalIps,
        out: &mut Vec<Output>,
    )
        ensures
            exists|steps: Seq<World>| #[trigger]
                gives_up_by(
                    world(*old(self), *friends, old(out)@),
                    world(*final(self), *friends, final(out)@),
                    probe_views(over@),
                    steps,
                    local,
                ),
            final(self).identity == old(self).identity,
    {
        let ghost w = world(*self, *friends, out@);
        let ghost all = probe_views(over@);
        let ghost mut steps: Seq<World> = seq![w];
        let mut i: usize = 0;
        while i < over.len()
            invariant
                i <= over@.len(),
                all == probe_views(over@),
                steps.len() == i + 1,
                steps[0] == w,
                steps.last() == world(*self, *friends, out@),
                forall|j: int| 0 <= j < i ==> #[trigger] gives_up_at(steps, all, j, local),
                self.identity == old(self).identity,
            decreases over@.len() - i,
        {
            let ghost old_steps = steps;
            let ghost before = world(*self, *friends, out@);
            let victim: [u8; 32] = over[i].0;
            let _ = self.ip_probes.remove(&victim);
            self.pending_announce.insert(
                victim,
                PendingAnnounce { bytes: copy_of(&over[i].1.bytes), probe_id: over[i].1.probe_id },
            );
            let mut s = "好友 ".to_owned();
            s.append(&id::short(&victim));
            s.append(" 未确认新 IP，已向共同好友广播");
            assert(s@ =~= unconfirmed_text(victim@));
            push_output(out, Output::Event(NetEvent::Status(s)));
            assert(world(*self, *friends, out@) =~= probe_given_up(
                before,
                all[i as int].0,
                all[i as int].1,
            ));
            self.gossip_unconfirmed(friends, &victim, local, out);
            proof {
                steps = steps.push(world(*self, *friends, out@));
                assert forall|j: int| 0 <= j < i + 1 implies #[trigger] gives_up_at(
                    steps,
                    all,
                    j,
                    local,
                ) by {
                    if j < i {
                        assert(gives_up_at(old_steps, all, j, local));
                        assert(steps[j] == old_steps[j] && steps[j + 1] == old_steps[j + 1]);
                    }
                }
            }
            i = i + 1;
        }
        assert(gives_up_by(w, world(*self, *friends, out@), all, steps, local));
    }

    /// Tells all other friends that one of them has not heard of our address.
    pub fn gossip_unconfirmed(
        &self,
        friends: &FriendStore,
        victim: &[u8; 32],
        local: LocalIps,
        out: &mut Vec<Output>,
    )
        ensures
            gossips(
                world(*self, *friends, old(out)@),
                world(*self, *friends, final(out)@),
                victim@,
                local,
            ),
    {
        let ghost w = world(*self, *friends, out@);
        let ips = self.announcement(local);
        let victims: [[u8; 32]; 1] = [*victim];
        let inner = encode_gossip(&victims, &ips);
        assert(keys(victims@) =~= seq![victim@]);
        let peers = other_friend_keys(friends, victim);
        let sent = self.send_round(
            friends,
            PktType::Gossip,
            FLAG_EPHEMERAL,
            &peers,
            &inner,
            out,
        );
        assert(world(*self, *friends, out@) == peers_sent(w, peers_of(sent@), bytes_of(sent@)));
    }

    /// Takes in a friend's announcement and confirms it.
    pub fn handle_ip_changed(
        &mut self,
        friends: &mut FriendStore,
        p: &Packet,
        src: SocketAddr,
        now: Moment,
        out: &mut Vec<Output>,
    ) -> (r: Result<(), NetError>)
        ensures
            ip_changed_step(
                world(*old(self), *old(friends), old(out)@),
                world(*final(self), *final(friends), final(out)@),
                p@,
                src@,
                now,
                r,
            ),
            old(self).identity.wf() ==> reads_honest(old(self)@.me, p@),
            final(self).identity == old(self).identity,
    {
        let ghost w = world(*self, *friends, out@);
        let plain = match self.open_payload(p) {
            Ok(plain) => plain,
            Err(e) => {
                return Err(e);
            },
        };
        let (probe_id, ips) = match decode_ip_changed(&plain) {
            Ok(x) => x,
            Err(e) => {
                return Err(NetError::Proto(e));
            },
        };
        self.take_moved(friends, &p.sender_id, src, &ips, now, out);
        let ghost a = world(*self, *friends, out@);
        let x = match cipher::ed_pub_to_x25519(&p.sender_id) {
            Some(x) => x,
            None => {
                assert(false);
                return Err(NetError::NoKey);
            },
        };
        let inner = encode_ip_changed_ack(probe_id);
        let bytes = match self.seal_packet(
            PktType::IpChangedAck,
            FLAG_ACK,
            0,
            &p.sender_id,
            &x,
            &inner,
        ) {
            Ok(b) => b,
            Err(e) => {
                assert(false);
                return Err(e);
            },
        };
        self.send_to_addr(&bytes, src, out);
        assert(world(*self, *friends, out@) =~= sent_to(a, src@, bytes@));
        let mut s = "好友 ".to_owned();
        s.append(&id::short(&p.sender_id));
        s.append(" 通知了新 IP，已确认");
        assert(s@ =~= friend_moved_text(p@.sender_id));
        push_output(out, Output::Event(NetEvent::Status(s)));
        assert(world(*self, *friends, out@) =~= emitted(
            sent_to(a, src@, bytes@),
            EventView::Status(friend_moved_text(p@.sender_id)),
        ));
        Ok(())
    }

    fn take_moved(
        &mut self,
        friends: &mut FriendStore,
        peer: &[u8; 32],
        src: SocketAddr,
        ips: &[String],
        now: Moment,
        out: &mut Vec<Output>,
    )
        ensures
            world(*final(self), *final(friends), final(out)@) == moved(
                world(*old(self), *old(friends), old(out)@),
                peer@,
                src@,
                texts(ips@),
                now,
            ),
            final(self).identity == old(self).identity,
            final(self)@.me == old(self)@.me,
    {
        let ghost w = world(*self, *friends, out@);
        let from = fmt_addr(src);
        let seen = friends.update_last_seen_and_ip_at(peer, Some(from.as_str()), now.unix);
        let mut merged = false;
        if ips.len() > 0 {
            merged = friends.merge_ips(peer, ips);
        }
        if seen || merged {
            assert(world(*self, *friends, out@) =~= (World {
                book: friends@,
                unsaved: true,
                ..w
            }));
            self.retry_failed_for(friends, peer, now.tick, out);
        }
    }

    /// Takes in the confirmation of a probe.
    pub fn handle_ip_changed_ack(&mut self, p: &Packet) -> (r: Result<(), NetError>)
        ensures
            ip_changed_ack_step(old(self)@, final(self)@, p@, r),
            old(self).identity.wf() ==> reads_honest(old(self)@.me, p@),
            final(self).identity == old(self).identity,
    {
        let ghost n = self@;
        let plain = match self.open_payload(p) {
            Ok(plain) => plain,
            Err(e) => {
                return Err(e);
            },
        };
        let probe_id: u64 = match decode_ip_changed_ack(&plain) {
            Ok(x) => x,
            Err(e) => {
                return Err(NetError::Proto(e));
            },
        };
        let _ = self.ip_probes.remove(&p.sender_id);
        let mut known = false;
        match self.pending_announce.get(&p.sender_id) {
            Some(a) => {
                known = a.probe_id == probe_id;
            },
            None => {},
        }
        if known {
            let _ = self.pending_announce.remove(&p.sender_id);
        }
        assert(self@ =~= confirmed(n, p@.sender_id, probe_id));
        Ok(())
    }

    /// Sends a friend that shows itself the announcement that it did not
    /// confirm.
    pub fn deliver_pending_announce(
        &self,
        friends: &FriendStore,
        friend: &[u8; 32],
        src: SocketAddr,
        out: &mut Vec<Output>,
    )
        ensures
            world(*self, *friends, final(out)@) == announce_delivered(
                world(*self, *friends, old(out)@),
                friend@,
                src@,
            ),
    {
        match self.pending_announce.get(friend) {
            Some(a) => {
                self.send_to_addr(&a.bytes, src, out);
            },
            None => {},
        }
    }
}

/// The contents of a list of probes.
pub open spec fn probe_views(v: Seq<([u8; 32], PendingProbe)>) -> Seq<(Seq<u8>, ProbeView)> {
    Seq::new(v.len(), |i: int| (v[i].0@, v[i].1@))
}

} // verus!
