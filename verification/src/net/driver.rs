//! One turn of the network loop: a datagram, a command, or the passing of
//! time.

use vstd::prelude::*;

use crate::bytes::same_array;
use crate::crypto::cipher::{is_sealed, SealedView};
use crate::crypto::primitives;
use crate::net::announce::{
    address_changed, address_checked, announce_delivered, announces_ips, ip_changed_ack_step,
    ip_changed_step, polls_probes, LocalIps,
};
use crate::net::attach::{attaches, cancelled, recvs_kept};
use crate::net::event::{push_output, EventView, Moment, NetCommand, NetEvent, Output};
use crate::net::ip::{ip_port_text, AddrView, SocketAddr};
use crate::net::lookup::{
    addr_answer_step, addr_query_step, finds_address, queries_checked, repeats_queries,
    ADDR_QUERY_TIMEOUT,
};
use crate::net::messages::{ack_step, msg_step, send_refusal, sends_message};
use crate::net::node::{
    emitted, honest, is_sealed_packet, noted_seen, payload_plain, plain_packet, reads_honest,
    resent, sent_to, sent_to_peer, world, ChunkRef, ChunkRefView, Me, NetError, NetState, Network,
    World,
};
use crate::net::packet::{
    decoded, envelope, law_packet_round_trip, lemma_unsigned_len, signed_bytes, unsigned_bytes,
    verified, Packet, PacketView, PktType, HEADER_LEN, SIG_LEN,
};
use crate::net::pushes::{delivers_pushes, gossip_step, polls_pushes, push_step};
use crate::net::retransmit::{
    after, failures, pending_views, resends, still_waiting, time_after, PendingPacket, PendingView,
};
use crate::net::session::session_of;
use crate::net::socket::{fmt_addr, normalize_recv, recv_form};
use crate::store::friends::{book_seen, has_friend, FriendStore, FriendView};
use crate::table::{lookup, put, without};

verus! {

// ---------- datagrams ----------

/// The packet in a datagram, if it is genuine, for us and from a friend.
pub open spec fn accepted(
    me: Me,
    book: Seq<FriendView>,
    bytes: Seq<u8>,
) -> Result<PacketView, NetError> {
    match decoded(bytes) {
        Err(e) => Err(NetError::Packet(e)),
        Ok(d) => match verified(d) {
            Err(e) => Err(NetError::Packet(e)),
            Ok(_) => if d.packet.recipient_id != me.ed_pub {
                Err(NetError::NotForUs)
            } else if !has_friend(book, d.packet.sender_id) {
                Err(NetError::UnknownSender)
            } else {
                Ok(d.packet)
            },
        },
    }
}

/// Whether packets of a type are encrypted.
pub open spec fn is_encrypted(t: PktType) -> bool {
    t != PktType::Ping && t != PktType::Pong
}

/// Whether a datagram is a packet that an honest friend sealed for us.
pub open spec fn honest_packet(
    me: Me,
    book: Seq<FriendView>,
    bytes: Seq<u8>,
    peer: Me,
    ptype: PktType,
    flags: u8,
    seq: u32,
    inner: Seq<u8>,
) -> bool {
    &&& honest(peer)
    &&& has_friend(book, peer.ed_pub)
    &&& inner.len() <= 0x7fff_0000
    &&& is_sealed_packet(peer, ptype, flags, seq, me.ed_pub, inner, bytes)
}

/// Whether a packet was taken for what an honest friend sealed: its header,
/// and the plaintext in it.
pub open spec fn taken_for(
    me: Me,
    book: Seq<FriendView>,
    bytes: Seq<u8>,
    peer: Me,
    ptype: PktType,
    flags: u8,
    seq: u32,
    inner: Seq<u8>,
) -> bool {
    accepted(me, book, bytes) matches Ok(p) && p.ptype == ptype && p.flags == flags && p.seq == seq
        && p.sender_id == peer.ed_pub && payload_plain(me, p) == Ok::<Seq<u8>, NetError>(inner)
}

/// What a packet of a friend does, by its type.
pub open spec fn handles(
    w: World,
    w2: World,
    p: PacketView,
    src: AddrView,
    now: Moment,
    r: Result<(), NetError>,
) -> bool {
    match p.ptype {
        PktType::Msg => msg_step(w, w2, p, src, now.tick, r),
        PktType::MsgAck => ack_step(w, w2, p, r),
        PktType::Ping => r is Ok && w2 == sent_to(
            w,
            src,
            plain_packet(w.net.me, PktType::Pong, p.sender_id, Seq::empty()),
        ),
        PktType::Pong => r is Ok && w2 == emitted(w, EventView::FriendSeen { peer: p.sender_id }),
        PktType::AddrQuery => addr_query_step(w, w2, p, src, now.tick, r),
        PktType::AddrAnswer => addr_answer_step(w, w2, p, now.tick, r),
        PktType::IpChanged => ip_changed_step(w, w2, p, src, now, r),
        PktType::IpChangedAck => ip_changed_ack_step(w.net, w2.net, p, r) && w2 == (World {
            net: w2.net,
            ..w
        }),
        PktType::Gossip => gossip_step(w, w2, p, now, r),
        PktType::PushIp => push_step(w, w2, p, now.tick, r),
    }
}

/// What follows a packet of a friend that was handled: it is online, so what
/// waits for it is sent.
pub open spec fn follows_up(
    w: World,
    w2: World,
    peer: Seq<u8>,
    src: AddrView,
    now: u64,
) -> bool {
    exists|c: World| #[trigger]
        delivers_pushes(w, c, peer, now) && w2 == announce_delivered(c, peer, src)
}

/// What a datagram does. One that is not accepted does nothing.
pub open spec fn packet_step(
    w: World,
    w2: World,
    bytes: Seq<u8>,
    src: AddrView,
    now: Moment,
    r: Result<(), NetError>,
) -> bool {
    match accepted(w.net.me, w.book, bytes) {
        Err(e) => r == Err::<(), NetError>(e) && w2 == w,
        Ok(p) => {
            let a = noted_seen(w, p.sender_id, ip_port_text(src.ip(), src.port()), now);
            exists|b: World| #[trigger]
                handles(a, b, p, src, now, r) && if r is Ok {
                    follows_up(b, w2, p.sender_id, src, now.tick)
                } else {
                    w2 == b
                }
        },
    }
}

/// Whether a packet carries a plaintext that an honest peer sealed for us.
pub open spec fn carries(
    p: PacketView,
    me: Me,
    peer: Me,
    ptype: PktType,
    flags: u8,
    seq: u32,
    inner: Seq<u8>,
) -> bool {
    &&& p.ptype == ptype
    &&& p.flags == flags
    &&& p.seq == seq
    &&& p.sender_id == peer.ed_pub
    &&& p.recipient_id == me.ed_pub
    &&& exists|sealed: SealedView| #[trigger]
        is_sealed(
            sealed,
            peer.x25519_sk,
            primitives::edwards_to_montgomery(me.ed_pub)->0,
            peer.ed_pub,
            me.ed_pub,
            inner,
        ) && p.payload == envelope(sealed)
}

/// A packet of an honest peer comes apart as it was put together.
proof fn lemma_honest_decodes(
    me: Me,
    book: Seq<FriendView>,
    bytes: Seq<u8>,
    peer: Me,
    ptype: PktType,
    flags: u8,
    seq: u32,
    inner: Seq<u8>,
)
    requires
        honest_packet(me, book, bytes, peer, ptype, flags, seq, inner),
        me.ed_pub.len() == 32,
        bytes.len() <= usize::MAX,
    ensures
        decoded(bytes) matches Ok(d) && carries(d.packet, me, peer, ptype, flags, seq, inner)
            && d.signature == primitives::ed25519_signature(peer.seed, unsigned_bytes(d.packet)),
{
    reveal(is_sealed_packet);
    let x = primitives::edwards_to_montgomery(me.ed_pub)->0;
    let sealed = choose|sealed: SealedView| #[trigger]
        is_sealed(sealed, peer.x25519_sk, x, peer.ed_pub, me.ed_pub, inner) && bytes
            == signed_bytes(
            PacketView {
                ptype,
                flags,
                seq,
                sender_id: peer.ed_pub,
                recipient_id: me.ed_pub,
                payload: envelope(sealed),
            },
            peer.seed,
        ) && bytes.len() == HEADER_LEN + envelope(sealed).len() + SIG_LEN;
    let pv = PacketView {
        ptype,
        flags,
        seq,
        sender_id: peer.ed_pub,
        recipient_id: me.ed_pub,
        payload: envelope(sealed),
    };
    let sig = primitives::ed25519_signature(peer.seed, unsigned_bytes(pv));
    lemma_unsigned_len(pv);
    assert(sig.len() == SIG_LEN);
    assert(sealed.nonce.len() == 12);
    assert(envelope(sealed).len() == 32 + 12 + inner.len() + primitives::GCM_TAG_LEN);
    law_packet_round_trip(pv, sig);
    assert(is_sealed(sealed, peer.x25519_sk, x, peer.ed_pub, me.ed_pub, inner));
}

/// Sending failed packets again touches only the outputs and the
/// retransmission.
pub proof fn lemma_resent(
    w: World,
    failed: Seq<((Seq<u8>, u32), Seq<u8>)>,
    who: Seq<u8>,
    now: u64,
)
    ensures
        ({
            let r = resent(w, failed, who, now);
            &&& r.book == w.book
            &&& r.unsaved == w.unsaved
            &&& r.net == NetState { retx: r.net.retx, ..w.net }
        }),
    decreases failed.len(),
{
    if failed.len() > 0 {
        lemma_resent(w, failed.drop_last(), who, now);
    }
}

/// Traffic of a friend touches only the friend list, the outputs, the
/// retransmission and the failed packets.
pub proof fn lemma_noted_seen(w: World, who: Seq<u8>, ip: Seq<char>, now: Moment)
    ensures
        ({
            let r = noted_seen(w, who, ip, now);
            r.net == NetState {
                retx: r.net.retx,
                failed_sends: r.net.failed_sends,
                ..w.net
            }
        }),
{
    let book = book_seen(w.book, who, Some(ip), now.unix);
    let e = emitted(World { book, unsaved: true, ..w }, EventView::FriendSeen { peer: who });
    lemma_resent(e, e.net.failed_sends, who, now.tick);
}

// ---------- the passing of time ----------

/// The world after packets were sent again.
pub open spec fn resends_sent(w: World, again: Seq<PendingView>) -> World
    decreases again.len(),
{
    if again.len() == 0 {
        w
    } else {
        let p = again.last();
        sent_to_peer(resends_sent(w, again.drop_last()), p.recipient, p.bytes)
    }
}

/// The chunk that a packet carries, if it carries one: its number stands for a
/// chunk to its recipient.
pub open spec fn own_chunk(chunks: Seq<(u32, ChunkRefView)>, f: PendingView) -> Option<
    ChunkRefView,
> {
    match lookup(chunks, f.seq) {
        Some(c) => if c.recipient == f.recipient {
            Some(c)
        } else {
            None
        },
        None => None,
    }
}

/// Whether this is a chunk of a transfer.
pub open spec fn belongs(c: Option<ChunkRefView>, recipient: Seq<u8>, transfer: Seq<u8>) -> bool {
    c matches Some(c) && c.recipient == recipient && c.transfer == transfer
}

/// Whether one of the packets carries a chunk of a transfer.
pub open spec fn carry_chunk(
    chunks: Seq<(u32, ChunkRefView)>,
    packets: Seq<PendingView>,
    recipient: Seq<u8>,
    transfer: Seq<u8>,
) -> bool {
    exists|i: int|
        0 <= i < packets.len() && belongs(
            #[trigger] own_chunk(chunks, packets[i]),
            recipient,
            transfer,
        )
}

/// The world after a transfer was given up.
pub open spec fn transfer_ended(w: World, recipient: Seq<u8>, transfer: Seq<u8>) -> World {
    emitted(
        World {
            net: cancelled(
                NetState { attach_sends: without(w.net.attach_sends, transfer), ..w.net },
                recipient,
                transfer,
            ),
            ..w
        },
        EventView::AttachFailed { peer: recipient, transfer },
    )
}

/// The world after a packet was given up that carries this chunk, or none. A
/// chunk ends its whole transfer, unless one of the packets that were given up
/// earlier did so; a message is kept for later.
pub open spec fn given_up(
    w: World,
    f: PendingView,
    chunk: Option<ChunkRefView>,
    ended: bool,
) -> World {
    match chunk {
        Some(c) => if ended {
            w
        } else {
            transfer_ended(w, c.recipient, c.transfer)
        },
        None => emitted(
            World {
                net: NetState {
                    failed_sends: put(w.net.failed_sends, (f.recipient, f.seq), f.bytes),
                    ..w.net
                },
                ..w
            },
            EventView::MessageFailed { peer: f.recipient, seq: f.seq },
        ),
    }
}

/// The world after several packets were given up at once.
pub open spec fn all_given_up(w: World, failed: Seq<PendingView>) -> World
    decreases failed.len(),
{
    if failed.len() == 0 {
        w
    } else {
        let chunks = w.net.chunk_seqs;
        let chunk = own_chunk(chunks, failed.last());
        let ended = chunk matches Some(c) && carry_chunk(
            chunks,
            failed.drop_last(),
            c.recipient,
            c.transfer,
        );
        given_up(all_given_up(w, failed.drop_last()), failed.last(), chunk, ended)
    }
}

/// The world after the retransmission was polled.
pub open spec fn retransmitted(w: World, now: u64) -> World {
    let a = World { net: NetState { retx: still_waiting(w.net.retx, now), ..w.net }, ..w };
    all_given_up(resends_sent(a, resends(w.net.retx, now)), failures(w.net.retx, now))
}

/// Whether `w2` is `w` after a look at the local address, which is announced
/// if it changed.
pub open spec fn checks_address(w: World, w2: World, now: u64, local: LocalIps) -> bool {
    let a = World { net: address_checked(w.net, now, local), ..w };
    if address_changed(w.net, now, local) {
        announces_ips(a, w2, local, now)
    } else {
        w2 == a
    }
}

/// Whether `w2` is `w` after time has come to `now`.
pub open spec fn ticks(w: World, w2: World, now: u64, local: LocalIps) -> bool {
    exists|a: World, b: World, c: World, d: World|
        repeats_queries(queries_checked(retransmitted(w, now), now), a, now)
            && #[trigger] polls_probes(a, b, now, local) && #[trigger] polls_pushes(b, c, now)
            && #[trigger] checks_address(c, d, now, local) && w2 == (World {
            net: NetState { attach_recvs: recvs_kept(d.net.attach_recvs, now), ..d.net },
            ..d
        })
}

// ---------- commands ----------

/// Whether `w2` is `w` after a command of the user interface.
pub open spec fn obeys(w: World, w2: World, cmd: NetCommand, now: Moment) -> bool {
    match cmd {
        NetCommand::Send { recipient, content, seq } => match send_refusal(
            w.book,
            recipient@,
            content@,
        ) {
            Some(_) => w2 == emitted(w, EventView::MessageFailed { peer: recipient@, seq }),
            None => sends_message(w, w2, recipient@, content@, seq, now),
        },
        NetCommand::SendAttach { recipient, kind, name, data, ts, transfer } => attaches(
            w,
            w2,
            recipient@,
            kind,
            name@,
            data@,
            ts,
            transfer@,
            now.tick,
        ),
        NetCommand::FindAddress { recipient } => finds_address(w, w2, recipient@, now.tick),
        NetCommand::Quit => w2 == w,
    }
}

// ---------- waiting ----------

/// Whether something may have to be done at a time.
pub open spec fn is_deadline(n: NetState, now: u64, d: u64) -> bool {
    ||| d == n.next_local_ip_check
    ||| exists|i: int|
        0 <= i < n.retx.len() && (#[trigger] n.retx[i]).1.next_retry == d && d > now
    ||| exists|i: int|
        0 <= i < n.addr_queries.len() && ((#[trigger] n.addr_queries[i]).1.next_retry == d || after(
            n.addr_queries[i].1.started,
            ADDR_QUERY_TIMEOUT,
        ) == d)
    ||| exists|i: int| 0 <= i < n.ip_probes.len() && (#[trigger] n.ip_probes[i]).1.next_try == d
    ||| exists|i: int, j: int|
        0 <= i < n.pending_pushes.len() && 0 <= j < n.pending_pushes[i].1.len()
            && (#[trigger] n.pending_pushes[i].1[j]).next_try == d
}

/// The contents of an optional chunk reference.
pub open spec fn opt_chunk(c: Option<ChunkRef>) -> Option<ChunkRefView> {
    match c {
        Some(c) => Some(c@),
        None => None,
    }
}

proof fn lemma_carry(
    chunks: Seq<(u32, ChunkRefView)>,
    packets: Seq<PendingView>,
    carried: Seq<Option<ChunkRef>>,
    n: int,
    c: ChunkRefView,
)
    requires
        0 <= n <= packets.len(),
        carried.len() == packets.len(),
        forall|j: int|
            0 <= j < packets.len() ==> opt_chunk(#[trigger] carried[j]) == own_chunk(
                chunks,
                packets[j],
            ),
    ensures
        carry_chunk(chunks, packets.take(n), c.recipient, c.transfer) <==> exists|j: int|
            0 <= j < n && belongs(opt_chunk(#[trigger] carried[j]), c.recipient, c.transfer),
{
    let t = packets.take(n);
    if carry_chunk(chunks, t, c.recipient, c.transfer) {
        let i = choose|i: int|
            0 <= i < t.len() && belongs(#[trigger] own_chunk(chunks, t[i]), c.recipient, c.transfer);
        assert(t[i] == packets[i]);
        assert(opt_chunk(carried[i]) == own_chunk(chunks, packets[i]));
    }
    if exists|j: int|
        0 <= j < n && belongs(opt_chunk(#[trigger] carried[j]), c.recipient, c.transfer) {
        let j = choose|j: int|
            0 <= j < n && belongs(opt_chunk(#[trigger] carried[j]), c.recipient, c.transfer);
        assert(t[j] == packets[j]);
        assert(own_chunk(chunks, t[j]) is Some);
    }
}

/// Whether one of the first `n` chunks belongs to the same transfer as `c`.
fn belongs_before(carried: &[Option<ChunkRef>], n: usize, c: &ChunkRef) -> (r: bool)
    requires
        n <= carried@.len(),
    ensures
        r <==> exists|j: int|
            0 <= j < n && belongs(opt_chunk(#[trigger] carried@[j]), c@.recipient, c@.transfer),
{
    let mut j: usize = 0;
    while j < n
        invariant
            j <= n <= carried@.len(),
            forall|k: int|
                0 <= k < j ==> !belongs(
                    opt_chunk(#[trigger] carried@[k]),
                    c@.recipient,
                    c@.transfer,
                ),
        decreases n - j,
    {
        match &carried[j] {
            Some(d) => {
                if same_array(&d.recipient, &c.recipient) && same_array(&d.transfer, &c.transfer) {
                    assert(opt_chunk(carried@[j as int]) == Some(d@));
                    return true;
                }
            },
            None => {},
        }
        j = j + 1;
    }
    false
}

impl Network {
    /// Takes in a datagram.
    pub fn handle_datagram(
        &mut self,
        friends: &mut FriendStore,
        bytes: &[u8],
        src: SocketAddr,
        now: Moment,
        out: &mut Vec<Output>,
    ) -> (r: Result<(), NetError>)
        ensures
            packet_step(
                world(*old(self), *old(friends), old(out)@),
                world(*final(self), *final(friends), final(out)@),
                bytes@,
                recv_form(src@),
                now,
                r,
            ),
            final(self).identity == old(self).identity,
    {
        self.handle_packet(friends, bytes, normalize_recv(src), now, out)
    }

    /// Takes in a packet that came from an address.
    pub fn handle_packet(
        &mut self,
        friends: &mut FriendStore,
        bytes: &[u8],
        src: SocketAddr,
        now: Moment,
        out: &mut Vec<Output>,
    ) -> (r: Result<(), NetError>)
        ensures
            packet_step(
                world(*old(self), *old(friends), old(out)@),
                world(*final(self), *final(friends), final(out)@),
                bytes@,
                src@,
                now,
                r,
            ),
            old(self).identity.wf() ==> forall|
                peer: Me,
                ptype: PktType,
                flags: u8,
                seq: u32,
                inner: Seq<u8>,
            | #[trigger]
                honest_packet(
                    old(self)@.me,
                    old(friends)@,
                    bytes@,
                    peer,
                    ptype,
                    flags,
                    seq,
                    inner,
                ) && is_encrypted(ptype) && !(ptype == PktType::Msg && session_of(
                    old(self)@.sessions,
                    peer.ed_pub,
                ).contains(seq)) ==> taken_for(
                    old(self)@.me,
                    old(friends)@,
                    bytes@,
                    peer,
                    ptype,
                    flags,
                    seq,
                    inner,
                ),
            final(self).identity == old(self).identity,
    {
        let ghost w = world(*self, *friends, out@);
        let p = match self.accept(friends, bytes) {
            Ok(p) => p,
            Err(e) => {
                return Err(e);
            },
        };
        let from = fmt_addr(src);
        self.note_friend_seen(friends, &p.sender_id, &from, now, out);
        let ghost a = world(*self, *friends, out@);
        proof {
            lemma_noted_seen(w, p@.sender_id, from@, now);
        }
        let r = self.handle_by_type(friends, &p, src, now, out);
        let ghost b = world(*self, *friends, out@);
        assert(handles(a, b, p@, src@, now, r));
        if r.is_err() {
            return r;
        }
        self.deliver_pending_pushes(friends, &p.sender_id, now.tick, out);
        let ghost c = world(*self, *friends, out@);
        assert(delivers_pushes(b, c, p@.sender_id, now.tick));
        self.deliver_pending_announce(friends, &p.sender_id, src, out);
        assert(follows_up(b, world(*self, *friends, out@), p@.sender_id, src@, now.tick));
        r
    }

    /// The packet in a datagram, if it is genuine, for us and from a friend.
    /// What an honest friend sealed for us is.
    fn accept(&self, friends: &FriendStore, bytes: &[u8]) -> (r: Result<Packet, NetError>)
        ensures
            match accepted(self@.me, friends@, bytes@) {
                Ok(p) => r matches Ok(x) && x@ == p,
                Err(e) => r matches Err(x) && x == e,
            },
            forall|peer: Me, ptype: PktType, flags: u8, seq: u32, inner: Seq<u8>| #[trigger]
                honest_packet(self@.me, friends@, bytes@, peer, ptype, flags, seq, inner) ==> (
                accepted(self@.me, friends@, bytes@) matches Ok(p) && carries(
                    p,
                    self@.me,
                    peer,
                    ptype,
                    flags,
                    seq,
                    inner,
                )),
    {
        let dec = match Packet::decode(bytes) {
            Ok(d) => d,
            Err(e) => {
                proof {
                    assert(bytes.len() <= usize::MAX);
                    assert forall|peer: Me, ptype: PktType, flags: u8, seq: u32, inner: Seq<u8>|
                        !(#[trigger] honest_packet(
                            self@.me,
                            friends@,
                            bytes@,
                            peer,
                            ptype,
                            flags,
                            seq,
                            inner,
                        )) by {
                        if honest_packet(
                            self@.me,
                            friends@,
                            bytes@,
                            peer,
                            ptype,
                            flags,
                            seq,
                            inner,
                        ) {
                            lemma_honest_decodes(
                                self@.me,
                                friends@,
                                bytes@,
                                peer,
                                ptype,
                                flags,
                                seq,
                                inner,
                            );
                        }
                    }
                }
                return Err(NetError::Packet(e));
            },
        };
        proof {
            assert forall|peer: Me, ptype: PktType, flags: u8, seq: u32, inner: Seq<u8>|
                #[trigger]
                honest_packet(
                    self@.me,
                    friends@,
                    bytes@,
                    peer,
                    ptype,
                    flags,
                    seq,
                    inner,
                ) implies carries(dec@.packet, self@.me, peer, ptype, flags, seq, inner)
                && dec@.packet.sender_id == primitives::ed25519_public(peer.seed) && dec@.signature
                == primitives::ed25519_signature(peer.seed, unsigned_bytes(dec@.packet)) by {
                lemma_honest_decodes(
                    self@.me,
                    friends@,
                    bytes@,
                    peer,
                    ptype,
                    flags,
                    seq,
                    inner,
                );
            }
        }
        match Packet::verify(&dec) {
            Ok(_) => {},
            Err(e) => {
                return Err(NetError::Packet(e));
            },
        }
        let p = dec.packet;
        if !same_array(&p.recipient_id, &self.identity.ed_pub) {
            return Err(NetError::NotForUs);
        }
        if !self.is_friend(friends, &p.sender_id) {
            return Err(NetError::UnknownSender);
        }
        Ok(p)
    }

    fn handle_by_type(
        &mut self,
        friends: &mut FriendStore,
        p: &Packet,
        src: SocketAddr,
        now: Moment,
        out: &mut Vec<Output>,
    ) -> (r: Result<(), NetError>)
        ensures
            handles(
                world(*old(self), *old(friends), old(out)@),
                world(*final(self), *final(friends), final(out)@),
                p@,
                src@,
                now,
                r,
            ),
            old(self).identity.wf() && is_encrypted(p.ptype) && !(p.ptype == PktType::Msg
                && session_of(old(self)@.sessions, p@.sender_id).contains(p@.seq)) ==> reads_honest(
                old(self)@.me,
                p@,
            ),
            final(self).identity == old(self).identity,
    {
        let ghost w = world(*self, *friends, out@);
        match p.ptype {
            PktType::Msg => self.handle_msg(friends, p, src, now.tick, out),
            PktType::MsgAck => self.handle_ack(friends, p, out),
            PktType::Ping => {
                self.handle_ping(friends, p, src, out);
                Ok(())
            },
            PktType::Pong => {
                push_output(out, Output::Event(NetEvent::FriendSeen { id: p.sender_id }));
                assert(world(*self, *friends, out@) =~= emitted(
                    w,
                    EventView::FriendSeen { peer: p@.sender_id },
                ));
                Ok(())
            },
            PktType::AddrQuery => self.handle_addr_query(friends, p, src, now.tick, out),
            PktType::AddrAnswer => self.handle_addr_answer(friends, p, now.tick, out),
            PktType::IpChanged => self.handle_ip_changed(friends, p, src, now, out),
            PktType::IpChangedAck => self.handle_ip_changed_ack(p),
            PktType::Gossip => self.handle_gossip(friends, p, now, out),
            PktType::PushIp => self.handle_push_ip(friends, p, now.tick, out),
        }
    }

    /// Does what is due: retransmission, queries, probes, pushes, a look at
    /// the local address, and clearing up.
    pub fn tick(
        &mut self,
        friends: &FriendStore,
        now: u64,
        local: LocalIps,
        out: &mut Vec<Output>,
    )
        ensures
            ticks(
                world(*old(self), *friends, old(out)@),
                world(*final(self), *friends, final(out)@),
                now,
                local,
            ),
            final(self).identity == old(self).identity,
    {
        self.retransmit(friends, now, out);
        self.check_addr_queries(friends, now, out);
        self.retry_addr_queries(friends, now, out);
        let ghost a = world(*self, *friends, out@);
        self.poll_probes(friends, now, local, out);
        let ghost b = world(*self, *friends, out@);
        self.poll_pushes(friends, now, out);
        let ghost c = world(*self, *friends, out@);
        if self.detect_local_ip_change(now, local) {
            assert(world(*self, *friends, out@) =~= (World {
                net: address_checked(c.net, now, local),
                ..c
            }));
            self.announce_ips(friends, local, now, out);
        }
        let ghost d = world(*self, *friends, out@);
        proof {
            if !address_changed(c.net, now, local) {
                assert(d =~= (World { net: address_checked(c.net, now, local), ..c }));
            }
            assert(polls_probes(a, b, now, local));
            assert(polls_pushes(b, c, now));
            assert(checks_address(c, d, now, local));
        }
        self.prune_attach_recvs(now);
        assert(world(*self, *friends, out@) =~= (World {
            net: NetState { attach_recvs: recvs_kept(d.net.attach_recvs, now), ..d.net },
            ..d
        }));
    }

    fn retransmit(&mut self, friends: &FriendStore, now: u64, out: &mut Vec<Output>)
        ensures
            world(*final(self), *friends, final(out)@) == retransmitted(
                world(*old(self), *friends, old(out)@),
                now,
            ),
            final(self).identity == old(self).identity,
    {
        let ghost w = world(*self, *friends, out@);
        let (again, failed) = self.retx.poll_retries(now);
        let ghost a = world(*self, *friends, out@);
        assert(a =~= (World {
            net: NetState { retx: still_waiting(w.net.retx, now), ..w.net },
            ..w
        }));
        self.send_again(friends, &again, out);
        self.give_up_all(friends, &failed, out);
    }

    fn send_again(&self, friends: &FriendStore, again: &[PendingPacket], out: &mut Vec<Output>)
        ensures
            world(*self, *friends, final(out)@) == resends_sent(
                world(*self, *friends, old(out)@),
                pending_views(again@),
            ),
    {
        let ghost w = world(*self, *friends, out@);
        let ghost all = pending_views(again@);
        let mut i: usize = 0;
        assert(all.take(0) =~= Seq::<PendingView>::empty());
        while i < again.len()
            invariant
                i <= again@.len(),
                all == pending_views(again@),
                world(*self, *friends, out@) == resends_sent(w, all.take(i as int)),
            decreases again@.len() - i,
        {
            assert(all.take(i + 1).drop_last() =~= all.take(i as int));
            self.send_to_peer(friends, &again[i].bytes, &again[i].recipient, out);
            i = i + 1;
        }
        assert(all.take(i as int) =~= all);
    }

    fn give_up_all(&mut self, friends: &FriendStore, failed: &[PendingPacket], out: &mut Vec<
        Output,
    >)
        ensures
            world(*final(self), *friends, final(out)@) == all_given_up(
                world(*old(self), *friends, old(out)@),
                pending_views(failed@),
            ),
            final(self).identity == old(self).identity,
    {
        let ghost w = world(*self, *friends, out@);
        let ghost all = pending_views(failed@);
        let carried = self.chunks_carried(failed);
        let mut i: usize = 0;
        assert(all.take(0) =~= Seq::<PendingView>::empty());
        while i < failed.len()
            invariant
                i <= failed@.len(),
                all == pending_views(failed@),
                carried@.len() == failed@.len(),
                forall|j: int|
                    0 <= j < failed@.len() ==> opt_chunk(#[trigger] carried@[j]) == own_chunk(
                        w.net.chunk_seqs,
                        all[j],
                    ),
                world(*self, *friends, out@) == all_given_up(w, all.take(i as int)),
                self.identity == old(self).identity,
            decreases failed@.len() - i,
        {
            assert(all.take(i + 1).drop_last() =~= all.take(i as int));
            assert(all.take(i + 1).last() == all[i as int]);
            assert(opt_chunk(carried@[i as int]) == own_chunk(w.net.chunk_seqs, all[i as int]));
            match &carried[i] {
                Some(c) => {
                    let ended = belongs_before(&carried, i, c);
                    proof {
                        lemma_carry(w.net.chunk_seqs, all, carried@, i as int, c@);
                    }
                    if !ended {
                        self.end_transfer(friends, c.recipient, c.transfer, out);
                    }
                },
                None => {
                    self.keep_failed(friends, &failed[i], out);
                },
            }
            i = i + 1;
        }
        assert(all.take(i as int) =~= all);
    }

    /// The chunks that packets carry.
    fn chunks_carried(&self, packets: &[PendingPacket]) -> (r: Vec<Option<ChunkRef>>)
        ensures
            r@.len() == packets@.len(),
            forall|j: int|
                0 <= j < r@.len() ==> opt_chunk(#[trigger] r@[j]) == own_chunk(
                    self@.chunk_seqs,
                    pending_views(packets@)[j],
                ),
    {
        let mut r: Vec<Option<ChunkRef>> = Vec::new();
        let mut i: usize = 0;
        while i < packets.len()
            invariant
                i <= packets@.len(),
                r@.len() == i,
                forall|j: int|
                    0 <= j < r@.len() ==> opt_chunk(#[trigger] r@[j]) == own_chunk(
                        self@.chunk_seqs,
                        pending_views(packets@)[j],
                    ),
            decreases packets@.len() - i,
        {
            let mut chunk: Option<ChunkRef> = None;
            match self.chunk_seqs.get(&packets[i].seq) {
                Some(c) => {
                    if same_array(&c.recipient, &packets[i].recipient) {
                        chunk = Some(
                            ChunkRef {
                                recipient: c.recipient,
                                transfer: c.transfer,
                                index: c.index,
                            },
                        );
                    }
                },
                None => {},
            }
            assert(opt_chunk(chunk) == own_chunk(
                self@.chunk_seqs,
                pending_views(packets@)[i as int],
            ));
            r.push(chunk);
            i = i + 1;
        }
        r
    }

    fn end_transfer(
        &mut self,
        friends: &FriendStore,
        recipient: [u8; 32],
        transfer: [u8; 16],
        out: &mut Vec<Output>,
    )
        ensures
            world(*final(self), *friends, final(out)@) == transfer_ended(
                world(*old(self), *friends, old(out)@),
                recipient@,
                transfer@,
            ),
            final(self).identity == old(self).identity,
    {
        let ghost w = world(*self, *friends, out@);
        let _ = self.attach_sends.remove(&transfer);
        push_output(out, Output::Event(NetEvent::AttachFailed { to: recipient, transfer }));
        self.cancel_transfer(recipient, transfer);
        assert(world(*self, *friends, out@) =~= transfer_ended(w, recipient@, transfer@));
    }

    fn keep_failed(&mut self, friends: &FriendStore, f: &PendingPacket, out: &mut Vec<Output>)
        ensures
            world(*final(self), *friends, final(out)@) == given_up(
                world(*old(self), *friends, old(out)@),
                f@,
                None,
                false,
            ),
            final(self).identity == old(self).identity,
    {
        let ghost w = world(*self, *friends, out@);
        self.failed_sends.insert((f.recipient, f.seq), crate::bytes::copy_of(&f.bytes));
        push_output(
            out,
            Output::Event(NetEvent::MessageFailed { to: f.recipient, seq: f.seq }),
        );
        assert(world(*self, *friends, out@) =~= given_up(w, f@, None, false));
    }

    /// Carries out a command; returns whether it was the last.
    pub fn handle_command(
        &mut self,
        friends: &FriendStore,
        cmd: NetCommand,
        now: Moment,
        out: &mut Vec<Output>,
    ) -> (quit: bool)
        ensures
            obeys(
                world(*old(self), *friends, old(out)@),
                world(*final(self), *friends, final(out)@),
                cmd,
                now,
            ),
            quit == (cmd is Quit),
            final(self).identity == old(self).identity,
    {
        let ghost w = world(*self, *friends, out@);
        match cmd {
            NetCommand::Send { recipient, content, seq } => {
                if self.handle_send(friends, recipient, &content, seq, now, out).is_err() {
                    push_output(
                        out,
                        Output::Event(NetEvent::MessageFailed { to: recipient, seq }),
                    );
                    assert(world(*self, *friends, out@) =~= emitted(
                        w,
                        EventView::MessageFailed { peer: recipient@, seq },
                    ));
                }
                false
            },
            NetCommand::SendAttach { recipient, kind, name, data, ts, transfer } => {
                self.handle_send_attach(
                    friends,
                    recipient,
                    kind,
                    &name,
                    &data,
                    ts,
                    transfer,
                    now.tick,
                    out,
                );
                false
            },
            NetCommand::FindAddress { recipient } => {
                self.handle_find_address(friends, recipient, now.tick, out);
                false
            },
            NetCommand::Quit => true,
        }
    }

    /// Milliseconds until something may have to be done.
    pub fn next_wakeup(&self, now: u64) -> (r: u64)
        ensures
            exists|d: u64| #[trigger]
                is_deadline(self@, now, d) && r == if d > now {
                    (d - now) as u64
                } else {
                    0
                },
            forall|d: u64| #[trigger] is_deadline(self@, now, d) ==> now + r <= d || r == 0,
    {
        let ghost n = self@;
        let mut best: u64 = self.next_local_ip_check;
        match self.retx.next_deadline(now) {
            Some(d) => {
                assert(n.retx == self.retx@);
                assert(is_deadline(n, now, d)) by {
                    let k = choose|k: int|
                        0 <= k < n.retx.len() && (#[trigger] n.retx[k]).1.next_retry == d;
                    assert(n.retx[k].1.next_retry == d);
                }
                if d < best {
                    best = d;
                }
            },
            None => {},
        }
        assert(is_deadline(n, now, best));
        let mut i: usize = 0;
        while i < self.addr_queries.entries.len()
            invariant
                n == self@,
                i <= self.addr_queries.entries@.len(),
                is_deadline(n, now, best),
                best <= n.next_local_ip_check,
                forall|j: int|
                    0 <= j < n.retx.len() && (#[trigger] n.retx[j]).1.next_retry > now ==> best
                        <= n.retx[j].1.next_retry,
                forall|j: int|
                    0 <= j < i ==> best <= (#[trigger] n.addr_queries[j]).1.next_retry && best
                        <= after(n.addr_queries[j].1.started, ADDR_QUERY_TIMEOUT),
            decreases self.addr_queries.entries@.len() - i,
        {
            let d: u64 = self.addr_queries.entries[i].1.next_retry;
            let e: u64 = time_after(self.addr_queries.entries[i].1.started, ADDR_QUERY_TIMEOUT);
            assert(n.addr_queries[i as int].1.next_retry == d);
            assert(after(n.addr_queries[i as int].1.started, ADDR_QUERY_TIMEOUT) == e);
            if d < best {
                best = d;
            }
            if e < best {
                best = e;
            }
            i = i + 1;
        }
        let mut i: usize = 0;
        while i < self.ip_probes.entries.len()
            invariant
                n == self@,
                i <= self.ip_probes.entries@.len(),
                is_deadline(n, now, best),
                best <= n.next_local_ip_check,
                forall|j: int|
                    0 <= j < n.retx.len() && (#[trigger] n.retx[j]).1.next_retry > now ==> best
                        <= n.retx[j].1.next_retry,
                forall|j: int|
                    0 <= j < n.addr_queries.len() ==> best <= (#[trigger] n.addr_queries[j]).1.next_retry
                        && best <= after(n.addr_queries[j].1.started, ADDR_QUERY_TIMEOUT),
                forall|j: int| 0 <= j < i ==> best <= (#[trigger] n.ip_probes[j]).1.next_try,
            decreases self.ip_probes.entries@.len() - i,
        {
            let d: u64 = self.ip_probes.entries[i].1.next_try;
            assert(n.ip_probes[i as int].1.next_try == d);
            if d < best {
                best = d;
            }
            i = i + 1;
        }
        let best: u64 = self.first_push(now, best);
        if best > now {
            best - now
        } else {
            0
        }
    }

    /// The earliest of a deadline and the times at which a push is due.
    fn first_push(&self, now: u64, start: u64) -> (best: u64)
        requires
            is_deadline(self@, now, start),
        ensures
            is_deadline(self@, now, best),
            best <= start,
            forall|j: int, k: int|
                0 <= j < self@.pending_pushes.len() && 0 <= k < self@.pending_pushes[j].1.len()
                    ==> best <= (#[trigger] self@.pending_pushes[j].1[k]).next_try,
    {
        let ghost n = self@;
        let mut best: u64 = start;
        let mut i: usize = 0;
        while i < self.pending_pushes.entries.len()
            invariant
                n == self@,
                i <= self.pending_pushes.entries@.len(),
                is_deadline(n, now, best),
                best <= start,
                forall|j: int, k: int|
                    0 <= j < i && 0 <= k < n.pending_pushes[j].1.len() ==> best <= (
                    #[trigger] n.pending_pushes[j].1[k]).next_try,
            decreases self.pending_pushes.entries@.len() - i,
        {
            let mut m: usize = 0;
            while m < self.pending_pushes.entries[i].1.items.len()
                invariant
                    n == self@,
                    i < self.pending_pushes.entries@.len(),
                    m <= n.pending_pushes[i as int].1.len(),
                    n.pending_pushes[i as int].1.len()
                        == self.pending_pushes.entries@[i as int].1.items@.len(),
                    is_deadline(n, now, best),
                    best <= start,
                    forall|j: int, k: int|
                        0 <= j < i && 0 <= k < n.pending_pushes[j].1.len() ==> best <= (
                        #[trigger] n.pending_pushes[j].1[k]).next_try,
                    forall|k: int|
                        0 <= k < m ==> best <= (#[trigger] n.pending_pushes[i as int].1[k]).next_try,
                decreases n.pending_pushes[i as int].1.len() - m,
            {
                let d: u64 = self.pending_pushes.entries[i].1.items[m].next_try;
                assert(n.pending_pushes[i as int].1[m as int].next_try == d);
                if d < best {
                    best = d;
                }
                m = m + 1;
            }
            i = i + 1;
        }
        best
    }
}

} // verus!
