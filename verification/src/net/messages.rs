//! Text messages, acknowledgements and pings.

use vstd::prelude::*;
use vstd::std_specs::hash::group_hash_axioms;
use vstd::utf8::encode_utf8;

use crate::bytes::{be32, same_array};
use crate::crypto::cipher;
use crate::crypto::primitives;
use crate::net::attach::assembled;
use crate::net::event::{push_output, EventView, Moment, NetEvent, Output};
use crate::net::ip::{AddrView, SocketAddr};
use crate::net::node::{
    dispatched, emitted, is_sealed_packet, payload_plain, peer_addrs, plain_packet, reads_honest,
    sent_to, world, AttachSendView, NetError, NetState, Network, World,
};
use crate::net::packet::{Packet, PacketView, PktType, FLAG_ACK, FLAG_EPHEMERAL};
use crate::net::retransmit::{time_after, PendingPacket, RETRY_INTERVAL};
use crate::net::session::{marked, session_of};
use crate::table::{has_key, lemma_without, lookup, put, without};
use crate::proto::{
    ack_of, chunk_of, decode_ack_inner, decode_attach_chunk, decode_msg_inner, encode_ack_inner,
    encode_msg_inner_at, msg_inner, msg_of, MSG_ATTACH, MSG_TEXT,
};
use crate::store::friends::{has_friend, FriendStore, FriendView};
use crate::text::byte_len;

verus! {

broadcast use group_hash_axioms;

/// Longest text message, in bytes.
pub const MAX_MSG_CONTENT_BYTES: usize = 3000;

// ---------- sending ----------

/// Why a message is not sent, if it is not.
pub open spec fn send_refusal(
    book: Seq<FriendView>,
    recipient: Seq<u8>,
    content: Seq<char>,
) -> Option<NetError> {
    if encode_utf8(content).len() > MAX_MSG_CONTENT_BYTES {
        Some(NetError::MessageTooLong)
    } else if primitives::edwards_to_montgomery(recipient) is None {
        Some(NetError::NoKey)
    } else if !has_friend(book, recipient) {
        Some(NetError::NotFriend)
    } else {
        None
    }
}

/// The world after a message packet: without a known address it has failed at
/// once.
pub open spec fn message_sent(
    w: World,
    recipient: Seq<u8>,
    seq: u32,
    bytes: Seq<u8>,
    now: u64,
) -> World {
    if peer_addrs(w.book, recipient).len() == 0 {
        emitted(
            World {
                net: NetState {
                    failed_sends: put(w.net.failed_sends, (recipient, seq), bytes),
                    ..w.net
                },
                ..w
            },
            EventView::MessageFailed { peer: recipient, seq },
        )
    } else {
        dispatched(w, recipient, seq, bytes, now)
    }
}

/// Whether `w2` is `w` after a text message was sent.
pub open spec fn sends_message(
    w: World,
    w2: World,
    recipient: Seq<u8>,
    content: Seq<char>,
    seq: u32,
    now: Moment,
) -> bool {
    exists|bytes: Seq<u8>|
        is_sealed_packet(
            w.net.me,
            PktType::Msg,
            FLAG_EPHEMERAL,
            seq,
            recipient,
            msg_inner(content, now.unix),
            bytes,
        ) && w2 == #[trigger] message_sent(w, recipient, seq, bytes, now.tick)
}

/// Whether `w2` is `w` after an acknowledgement to an address.
pub open spec fn sends_ack(w: World, w2: World, peer: Seq<u8>, seq: u32, src: AddrView) -> bool {
    exists|bytes: Seq<u8>|
        is_sealed_packet(
            w.net.me,
            PktType::MsgAck,
            FLAG_ACK,
            seq,
            peer,
            be32(seq),
            bytes,
        ) && w2 == #[trigger] sent_to(w, src, bytes)
}

// ---------- receiving ----------

/// The world after a sequence number of a peer came in.
pub open spec fn number_marked(w: World, peer: Seq<u8>, seq: u32) -> World {
    World {
        net: NetState {
            sessions: put(
                w.net.sessions,
                peer,
                marked(session_of(w.net.sessions, peer), seq),
            ),
            ..w.net
        },
        ..w
    }
}

/// What a message plaintext does: `w` is the world before it, `w2` after.
pub open spec fn plain_step(
    w: World,
    w2: World,
    p: PacketView,
    plain: Seq<u8>,
    src: AddrView,
    now: u64,
    r: Result<(), NetError>,
) -> bool {
    match msg_of(plain) {
        Err(e) => r == Err::<(), NetError>(NetError::Proto(e)) && w2 == w,
        Ok((kind, ts, content)) => if kind == MSG_ATTACH {
            exists|a: World| #[trigger]
                sends_ack(w, a, p.sender_id, p.seq, src) && match chunk_of(plain) {
                    Err(e) => r == Err::<(), NetError>(NetError::Proto(e)) && w2 == a,
                    Ok((_, c)) => r is Ok && w2 == assembled(a, p.sender_id, ts, c, now),
                }
        } else if kind == MSG_TEXT {
            &&& r is Ok
            &&& exists|a: World| #[trigger]
                sends_ack(w, a, p.sender_id, p.seq, src) && w2 == emitted(
                    a,
                    EventView::MessageReceived { peer: p.sender_id, content, seq: p.seq, ts },
                )
        } else {
            r == Err::<(), NetError>(NetError::UnknownMessage) && w2 == w
        },
    }
}

/// What a message packet does. One that came in before is acknowledged again
/// and does nothing else.
pub open spec fn msg_step(
    w: World,
    w2: World,
    p: PacketView,
    src: AddrView,
    now: u64,
    r: Result<(), NetError>,
) -> bool {
    let m = number_marked(w, p.sender_id, p.seq);
    if session_of(w.net.sessions, p.sender_id).contains(p.seq) {
        if primitives::edwards_to_montgomery(p.sender_id) is None {
            r == Err::<(), NetError>(NetError::NoKey) && w2 == m
        } else {
            r is Ok && sends_ack(m, w2, p.sender_id, p.seq, src)
        }
    } else {
        match payload_plain(w.net.me, p) {
            Err(e) => {
                &&& w2 == m
                &&& if e == NetError::NoKey {
                    r is Ok
                } else {
                    r == Err::<(), NetError>(e)
                }
            },
            Ok(plain) => plain_step(m, w2, p, plain, src, now, r),
        }
    }
}

/// The world after the acknowledgement of a chunk: the transfer is complete
/// once all its chunks are acknowledged.
pub open spec fn chunk_acked(w: World, peer: Seq<u8>, seq: u32) -> World {
    let c = lookup(w.net.chunk_seqs, seq)->0;
    let n = NetState {
        chunk_seqs: without(w.net.chunk_seqs, seq),
        retx: without(w.net.retx, (peer, seq)),
        failed_sends: without(w.net.failed_sends, (peer, seq)),
        ..w.net
    };
    match lookup(w.net.attach_sends, c.transfer) {
        Some(s) => if c.recipient == peer {
            let acked = s.acked.insert(c.index);
            if acked.len() == s.total_chunks {
                emitted(
                    World {
                        net: NetState {
                            attach_sends: without(n.attach_sends, c.transfer),
                            ..n
                        },
                        ..w
                    },
                    EventView::AttachAcked { peer: s.recipient, transfer: c.transfer },
                )
            } else {
                World {
                    net: NetState {
                        attach_sends: put(
                            n.attach_sends,
                            c.transfer,
                            AttachSendView { acked, ..s },
                        ),
                        ..n
                    },
                    ..w
                }
            }
        } else {
            World { net: n, ..w }
        },
        None => World { net: n, ..w },
    }
}

/// The world after an acknowledgement came in.
pub open spec fn acked(w: World, peer: Seq<u8>, seq: u32) -> World {
    if has_key(w.net.chunk_seqs, seq) {
        chunk_acked(w, peer, seq)
    } else if has_key(w.net.retx, (peer, seq)) {
        emitted(
            World {
                net: NetState {
                    retx: without(w.net.retx, (peer, seq)),
                    failed_sends: without(w.net.failed_sends, (peer, seq)),
                    ..w.net
                },
                ..w
            },
            EventView::MessageAcked { peer, seq },
        )
    } else {
        w
    }
}

/// What an acknowledgement packet does.
pub open spec fn ack_step(w: World, w2: World, p: PacketView, r: Result<(), NetError>) -> bool {
    match payload_plain(w.net.me, p) {
        Err(e) => r == Err::<(), NetError>(e) && w2 == w,
        Ok(plain) => match ack_of(plain) {
            Err(e) => r == Err::<(), NetError>(NetError::Proto(e)) && w2 == w,
            Ok(seq) => r is Ok && w2 == acked(w, p.sender_id, seq),
        },
    }
}

impl Network {
    /// Sends a text message to a friend.
    pub fn handle_send(
        &mut self,
        friends: &FriendStore,
        recipient: [u8; 32],
        content: &str,
        seq: u32,
        now: Moment,
        out: &mut Vec<Output>,
    ) -> (r: Result<(), NetError>)
        ensures
            ({
                let w = world(*old(self), *friends, old(out)@);
                let w2 = world(*final(self), *friends, final(out)@);
                match send_refusal(friends@, recipient@, content@) {
                    Some(e) => r == Err::<(), NetError>(e) && w2 == w,
                    None => r is Ok && sends_message(w, w2, recipient@, content@, seq, now),
                }
            }),
            final(self).identity == old(self).identity,
    {
        let ghost w = world(*self, *friends, out@);
        if byte_len(content) > MAX_MSG_CONTENT_BYTES {
            return Err(NetError::MessageTooLong);
        }
        let recip_xpub = match cipher::ed_pub_to_x25519(&recipient) {
            Some(x) => x,
            None => {
                return Err(NetError::NoKey);
            },
        };
        if !self.is_friend(friends, &recipient) {
            return Err(NetError::NotFriend);
        }
        let inner = encode_msg_inner_at(content, now.unix);
        let bytes = match self.seal_packet(
            PktType::Msg,
            FLAG_EPHEMERAL,
            seq,
            &recipient,
            &recip_xpub,
            &inner,
        ) {
            Ok(b) => b,
            Err(e) => {
                assert(false);
                return Err(e);
            },
        };
        let ghost packet = bytes@;
        let addrs = self.peer_addrs(friends, &recipient);
        if addrs.len() == 0 {
            self.failed_sends.insert((recipient, seq), bytes);
            push_output(out, Output::Event(NetEvent::MessageFailed { to: recipient, seq }));
            assert(world(*self, *friends, out@) =~= message_sent(
                w,
                recipient@,
                seq,
                packet,
                now.tick,
            ));
            return Ok(());
        }
        self.send_to_all(&bytes, &addrs, out);
        self.retx.insert(
            PendingPacket {
                bytes,
                recipient,
                seq,
                attempts: 0,
                next_retry: time_after(now.tick, RETRY_INTERVAL),
            },
        );
        assert(world(*self, *friends, out@) =~= message_sent(
            w,
            recipient@,
            seq,
            packet,
            now.tick,
        ));
        Ok(())
    }

    /// Acknowledges a message to the address that it came from.
    pub fn send_ack(
        &self,
        friends: &FriendStore,
        sender_id: &[u8; 32],
        seq: u32,
        src: SocketAddr,
        out: &mut Vec<Output>,
    ) -> (r: Result<(), NetError>)
        ensures
            ({
                let w = world(*self, *friends, old(out)@);
                let w2 = world(*self, *friends, final(out)@);
                if primitives::edwards_to_montgomery(sender_id@) is None {
                    r == Err::<(), NetError>(NetError::NoKey) && w2 == w
                } else {
                    r is Ok && sends_ack(w, w2, sender_id@, seq, src@)
                }
            }),
    {
        let ghost w = world(*self, *friends, out@);
        let x = match cipher::ed_pub_to_x25519(sender_id) {
            Some(x) => x,
            None => {
                return Err(NetError::NoKey);
            },
        };
        let inner = encode_ack_inner(seq);
        let bytes = match self.seal_packet(PktType::MsgAck, FLAG_ACK, seq, sender_id, &x, &inner) {
            Ok(b) => b,
            Err(e) => {
                assert(false);
                return Err(e);
            },
        };
        self.send_to_addr(&bytes, src, out);
        assert(world(*self, *friends, out@) =~= sent_to(w, src@, bytes@));
        Ok(())
    }

    /// Takes in a message packet.
    pub fn handle_msg(
        &mut self,
        friends: &FriendStore,
        p: &Packet,
        src: SocketAddr,
        now: u64,
        out: &mut Vec<Output>,
    ) -> (r: Result<(), NetError>)
        ensures
            msg_step(
                world(*old(self), *friends, old(out)@),
                world(*final(self), *friends, final(out)@),
                p@,
                src@,
                now,
                r,
            ),
            old(self).identity.wf() && !session_of(old(self)@.sessions, p@.sender_id).contains(
                p@.seq,
            ) ==> reads_honest(old(self)@.me, p@),
            final(self).identity == old(self).identity,
    {
        let ghost w = world(*self, *friends, out@);
        let seq: u32 = p.seq;
        let sess = self.sessions.get_mut(&p.sender_id);
        let seen = sess.is_seen(seq);
        sess.mark_seen(seq);
        let ghost m = number_marked(w, p@.sender_id, p@.seq);
        assert(world(*self, *friends, out@) =~= m);
        if seen {
            // A retransmission: the acknowledgement got lost.
            return self.send_ack(friends, &p.sender_id, seq, src, out);
        }
        let plain = match self.open_payload(p) {
            Ok(plain) => plain,
            Err(NetError::NoKey) => {
                return Ok(());
            },
            Err(e) => {
                return Err(e);
            },
        };
        self.handle_plain(friends, p, &plain, src, now, out)
    }

    fn handle_plain(
        &mut self,
        friends: &FriendStore,
        p: &Packet,
        plain: &[u8],
        src: SocketAddr,
        now: u64,
        out: &mut Vec<Output>,
    ) -> (r: Result<(), NetError>)
        requires
            primitives::edwards_to_montgomery(p@.sender_id) is Some,
        ensures
            plain_step(
                world(*old(self), *friends, old(out)@),
                world(*final(self), *friends, final(out)@),
                p@,
                plain@,
                src@,
                now,
                r,
            ),
            final(self).identity == old(self).identity,
    {
        let ghost w = world(*self, *friends, out@);
        let (mtype, ts, content) = match decode_msg_inner(plain) {
            Ok(m) => m,
            Err(e) => {
                return Err(NetError::Proto(e));
            },
        };
        if mtype == MSG_ATTACH {
            let acked = self.send_ack(friends, &p.sender_id, p.seq, src, out);
            assert(acked is Ok);
            let ghost a = world(*self, *friends, out@);
            assert(sends_ack(w, a, p@.sender_id, p@.seq, src@));
            return match decode_attach_chunk(plain) {
                Ok((_, chunk)) => {
                    self.assemble_attach(friends, &p.sender_id, ts, chunk, now, out);
                    Ok(())
                },
                Err(e) => Err(NetError::Proto(e)),
            };
        }
        if mtype != MSG_TEXT {
            return Err(NetError::UnknownMessage);
        }
        let acked = self.send_ack(friends, &p.sender_id, p.seq, src, out);
        assert(acked is Ok);
        let ghost a = world(*self, *friends, out@);
        assert(sends_ack(w, a, p@.sender_id, p@.seq, src@));
        let ghost e = EventView::MessageReceived {
            peer: p@.sender_id,
            content: content@,
            seq: p@.seq,
            ts,
        };
        push_output(
            out,
            Output::Event(
                NetEvent::MessageReceived { from: p.sender_id, content, seq: p.seq, ts },
            ),
        );
        assert(world(*self, *friends, out@) =~= emitted(a, e));
        Ok(())
    }

    /// Takes in an acknowledgement.
    pub fn handle_ack(&mut self, friends: &FriendStore, p: &Packet, out: &mut Vec<Output>) -> (r:
        Result<(), NetError>)
        ensures
            ack_step(
                world(*old(self), *friends, old(out)@),
                world(*final(self), *friends, final(out)@),
                p@,
                r,
            ),
            old(self).identity.wf() ==> reads_honest(old(self)@.me, p@),
            final(self).identity == old(self).identity,
    {
        let plain = match self.open_payload(p) {
            Ok(plain) => plain,
            Err(e) => {
                return Err(e);
            },
        };
        let seq: u32 = match decode_ack_inner(&plain) {
            Ok(seq) => seq,
            Err(e) => {
                return Err(NetError::Proto(e));
            },
        };
        self.take_ack(friends, &p.sender_id, seq, out);
        Ok(())
    }

    fn take_ack(
        &mut self,
        friends: &FriendStore,
        peer: &[u8; 32],
        seq: u32,
        out: &mut Vec<Output>,
    )
        ensures
            world(*final(self), *friends, final(out)@) == acked(
                world(*old(self), *friends, old(out)@),
                peer@,
                seq,
            ),
            final(self).identity == old(self).identity,
    {
        let ghost w = world(*self, *friends, out@);
        match self.chunk_seqs.remove(&seq) {
            Some(c) => {
                let _ = self.retx.ack(peer, seq);
                let _ = self.failed_sends.remove(&(*peer, seq));
                if !same_array(&c.recipient, peer) {
                    assert(world(*self, *friends, out@) =~= acked(w, peer@, seq));
                    return;
                }
                let i: usize = self.attach_sends.find(&c.transfer);
                if i >= self.attach_sends.len() {
                    assert(world(*self, *friends, out@) =~= acked(w, peer@, seq));
                    return;
                }
                let ghost before = self.attach_sends@;
                proof {
                    crate::table::lemma_key_index(before, c.transfer@);
                }
                let s = self.attach_sends.value_mut(i);
                let _ = s.acked.insert(c.index);
                let complete = s.acked.len() == s.total_chunks as usize;
                let recipient: [u8; 32] = s.recipient;
                let ghost sv = s@;
                proof {
                    let old_s = before[i as int].1;
                    assert(sv =~= AttachSendView { acked: old_s.acked.insert(c.index), ..old_s });
                }
                assert(self.attach_sends@ == put(before, c.transfer@, sv));
                if complete {
                    let _ = self.attach_sends.remove(&c.transfer);
                    proof {
                        lemma_without_put(before, c.transfer@, sv);
                    }
                    push_output(
                        out,
                        Output::Event(
                            NetEvent::AttachAcked { to: recipient, transfer: c.transfer },
                        ),
                    );
                }
                assert(world(*self, *friends, out@) =~= acked(w, peer@, seq));
            },
            None => {
                proof {
                    lemma_without(w.net.chunk_seqs, seq);
                    lemma_without(w.net.retx, (peer@, seq));
                }
                if self.retx.ack(peer, seq).is_some() {
                    let _ = self.failed_sends.remove(&(*peer, seq));
                    push_output(out, Output::Event(NetEvent::MessageAcked { to: *peer, seq }));
                }
                assert(world(*self, *friends, out@) =~= acked(w, peer@, seq));
            },
        }
    }

    /// Answers a ping.
    pub fn handle_ping(
        &self,
        friends: &FriendStore,
        p: &Packet,
        src: SocketAddr,
        out: &mut Vec<Output>,
    )
        ensures
            world(*self, *friends, final(out)@) == sent_to(
                world(*self, *friends, old(out)@),
                src@,
                plain_packet(self@.me, PktType::Pong, p@.sender_id, Seq::empty()),
            ),
    {
        let payload: Vec<u8> = Vec::new();
        let bytes = self.build_simple(PktType::Pong, &p.sender_id, payload);
        self.send_to_addr(&bytes, src, out);
    }
}

/// Removing a key forgets what was put there.
proof fn lemma_without_put<A, B>(s: Seq<(A, B)>, k: A, v: B)
    requires
        has_key(s, k),
    ensures
        without(put(s, k, v), k) == without(s, k),
{
    crate::table::lemma_key_index(s, k);
    lemma_without_update(s, crate::table::key_index(s, k), k, v);
}

proof fn lemma_without_update<A, B>(s: Seq<(A, B)>, i: int, k: A, v: B)
    requires
        0 <= i < s.len(),
        s[i].0 == k,
    ensures
        without(s.update(i, (k, v)), k) == without(s, k),
    decreases s.len(),
{
    let u = s.update(i, (k, v));
    if i == s.len() - 1 {
        assert(u.drop_last() =~= s.drop_last());
    } else {
        lemma_without_update(s.drop_last(), i, k, v);
        assert(u.drop_last() =~= s.drop_last().update(i, (k, v)));
    }
}

} // verus!
