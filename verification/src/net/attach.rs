//! Attachments: cut into chunks that are sent and acknowledged one by one,
//! and put together again.

use std::collections::HashSet;

use vstd::prelude::*;
use vstd::std_specs::hash::group_hash_axioms;

use crate::bytes::{cut, same_array};
use crate::crypto::cipher;
use crate::crypto::primitives;
use crate::net::event::{push_output, EventView, NetEvent, Output};
use crate::net::ip::SocketAddr;
use crate::net::node::{
    addr_views, dispatched, emitted, is_sealed_packet, peer_addrs, world, AttachRecv,
    AttachRecvView, AttachSend, AttachSendView, ChunkRef, ChunkRefView, Me, NetState, Network,
    World,
};
use crate::net::packet::{PktType, FLAG_EPHEMERAL};
use crate::net::retransmit::{time_after, PendingPacket, Waiting, RETRY_INTERVAL};
use crate::table::{lookup, put, without, Table};
use crate::proto::{chunk_body, chunk_inner, encode_attach_chunk, AttachChunk, ChunkView};
use crate::store::friends::{has_friend, FriendStore};

verus! {

broadcast use group_hash_axioms;

/// Bytes of data in one chunk.
pub const ATTACH_CHUNK_DATA: usize = 2400;

/// Largest attachment that is taken in.
pub const MAX_ATTACH_TOTAL: u64 = 0x1000_0000;

/// Milliseconds for which an incomplete attachment is kept.
pub const ATTACH_RECV_TTL: u64 = 120_000;

// ---------- sending ----------

/// How many chunks data is cut into; no data makes one empty chunk.
pub open spec fn chunk_count(len: nat) -> u32 {
    if len == 0 {
        1u32
    } else {
        (len as int / 2400 + if len as int % 2400 > 0 {
            1int
        } else {
            0int
        }) as u32
    }
}

/// The data of a chunk.
pub open spec fn chunk_data(data: Seq<u8>, i: int) -> Seq<u8> {
    data.subrange(
        2400 * i,
        if 2400 * (i + 1) < data.len() {
            2400 * (i + 1)
        } else {
            data.len() as int
        },
    )
}

/// A chunk of an attachment.
pub open spec fn chunk_at(
    transfer: Seq<u8>,
    kind: u8,
    name: Seq<char>,
    data: Seq<u8>,
    i: int,
) -> ChunkView {
    ChunkView {
        transfer,
        kind,
        index: i as u32,
        total: chunk_count(data.len()),
        total_size: data.len() as u64,
        name,
        data: chunk_data(data, i),
    }
}

/// The `k`-th sequence number after `base`.
pub open spec fn chunk_seq(base: u32, k: int) -> u32 {
    ((base + k) % 0x1_0000_0000) as u32
}

/// The world after the packet of one chunk was sent under the next sequence
/// number.
pub open spec fn chunk_dispatched(
    w: World,
    recipient: Seq<u8>,
    transfer: Seq<u8>,
    index: u32,
    packet: Seq<u8>,
    now: u64,
) -> World {
    let seq = chunk_seq(w.net.attach_seq, 1);
    let d = dispatched(w, recipient, seq, packet, now);
    World {
        net: NetState {
            attach_seq: seq,
            chunk_seqs: put(
                d.net.chunk_seqs,
                seq,
                ChunkRefView { recipient, transfer, index },
            ),
            ..d.net
        },
        ..d
    }
}

/// The world after the packets of an attachment were sent.
pub open spec fn chunks_dispatched(
    w: World,
    recipient: Seq<u8>,
    transfer: Seq<u8>,
    packets: Seq<Seq<u8>>,
    now: u64,
) -> World
    decreases packets.len(),
{
    if packets.len() == 0 {
        w
    } else {
        chunk_dispatched(
            chunks_dispatched(w, recipient, transfer, packets.drop_last(), now),
            recipient,
            transfer,
            (packets.len() - 1) as u32,
            packets.last(),
            now,
        )
    }
}

/// Whether packets carry the chunks of an attachment.
pub open spec fn are_chunk_packets(
    packets: Seq<Seq<u8>>,
    me: Me,
    base: u32,
    recipient: Seq<u8>,
    transfer: Seq<u8>,
    kind: u8,
    name: Seq<char>,
    data: Seq<u8>,
    ts: u64,
) -> bool {
    forall|i: int|
        0 <= i < packets.len() ==> is_sealed_packet(
            me,
            PktType::Msg,
            FLAG_EPHEMERAL,
            chunk_seq(base, i + 1),
            recipient,
            chunk_inner(chunk_at(transfer, kind, name, data, i), ts),
            #[trigger] packets[i],
        )
}

/// Whether an attachment can be sent to someone: a friend with a key and a
/// known address.
pub open spec fn can_attach(w: World, recipient: Seq<u8>) -> bool {
    &&& has_friend(w.book, recipient)
    &&& primitives::edwards_to_montgomery(recipient) is Some
    &&& peer_addrs(w.book, recipient).len() > 0
}

/// The world after an attachment was sent as the given packets.
pub open spec fn attach_sent(
    w: World,
    recipient: Seq<u8>,
    transfer: Seq<u8>,
    packets: Seq<Seq<u8>>,
    now: u64,
) -> World {
    let d = chunks_dispatched(w, recipient, transfer, packets, now);
    World {
        net: NetState {
            attach_sends: put(
                d.net.attach_sends,
                transfer,
                AttachSendView {
                    recipient,
                    total_chunks: packets.len() as u32,
                    acked: Set::empty(),
                },
            ),
            ..d.net
        },
        ..d
    }
}

/// Whether `w2` is `w` after an attachment was to be sent.
pub open spec fn attaches(
    w: World,
    w2: World,
    recipient: Seq<u8>,
    kind: u8,
    name: Seq<char>,
    data: Seq<u8>,
    ts: u64,
    transfer: Seq<u8>,
    now: u64,
) -> bool {
    if can_attach(w, recipient) {
        exists|packets: Seq<Seq<u8>>|
            packets.len() == chunk_count(data.len()) && #[trigger] are_chunk_packets(
                packets,
                w.net.me,
                w.net.attach_seq,
                recipient,
                transfer,
                kind,
                name,
                data,
                ts,
            ) && w2 == attach_sent(w, recipient, transfer, packets, now)
    } else {
        w2 == emitted(w, EventView::AttachFailed { peer: recipient, transfer })
    }
}

proof fn lemma_chunk_seq(base: u32, k: int)
    requires
        k >= 0,
    ensures
        chunk_seq(base, k + 1) == chunk_seq(chunk_seq(base, k), 1),
        chunk_seq(base, 0) == base,
        chunk_seq(base, 1) == (if base == u32::MAX {
            0
        } else {
            base + 1
        }),
{
}

proof fn lemma_packets_push(
    packets: Seq<Seq<u8>>,
    packet: Seq<u8>,
    me: Me,
    base: u32,
    recipient: Seq<u8>,
    transfer: Seq<u8>,
    kind: u8,
    name: Seq<char>,
    data: Seq<u8>,
    ts: u64,
)
    requires
        are_chunk_packets(packets, me, base, recipient, transfer, kind, name, data, ts),
        is_sealed_packet(
            me,
            PktType::Msg,
            FLAG_EPHEMERAL,
            chunk_seq(chunk_seq(base, packets.len() as int), 1),
            recipient,
            chunk_inner(chunk_at(transfer, kind, name, data, packets.len() as int), ts),
            packet,
        ),
    ensures
        are_chunk_packets(packets.push(packet), me, base, recipient, transfer, kind, name, data, ts),
{
    lemma_chunk_seq(base, packets.len() as int);
    let all = packets.push(packet);
    assert forall|i: int| 0 <= i < all.len() implies is_sealed_packet(
        me,
        PktType::Msg,
        FLAG_EPHEMERAL,
        chunk_seq(base, i + 1),
        recipient,
        chunk_inner(chunk_at(transfer, kind, name, data, i), ts),
        #[trigger] all[i],
    ) by {
        if i < packets.len() {
            assert(all[i] == packets[i]);
        }
    }
}

/// How many chunks data is cut into.
pub fn count_chunks(len: usize) -> (n: u32)
    ensures
        n == chunk_count(len as nat),
{
    if len == 0 {
        1
    } else {
        (len / ATTACH_CHUNK_DATA + if len % ATTACH_CHUNK_DATA > 0 {
            1
        } else {
            0
        }) as u32
    }
}

/// Cuts a chunk out of an attachment.
pub fn make_chunk(transfer: [u8; 16], kind: u8, name: &str, data: &[u8], i: u32) -> (r: AttachChunk)
    requires
        i < chunk_count(data@.len()),
    ensures
        r@ == chunk_at(transfer@, kind, name@, data@, i as int),
        r@.data.len() <= 2400,
{
    assert(data.len() <= usize::MAX);
    proof {
        lemma_chunk_bounds(data@, i as int);
    }
    let start: usize = i as usize * ATTACH_CHUNK_DATA;
    let end: usize = if data.len() - start <= ATTACH_CHUNK_DATA {
        data.len()
    } else {
        start + ATTACH_CHUNK_DATA
    };
    let r = AttachChunk {
        transfer,
        kind,
        index: i,
        total: count_chunks(data.len()),
        total_size: data.len() as u64,
        name: name.to_owned(),
        data: cut(data, start, end),
    };
    assert(r@ =~= chunk_at(transfer@, kind, name@, data@, i as int));
    r
}

// ---------- giving up ----------

/// The numbers that wait for the other chunks of a transfer, taken out of the
/// retransmission.
pub open spec fn retx_cancelled(
    retx: Waiting,
    chunks: Seq<(u32, ChunkRefView)>,
    recipient: Seq<u8>,
    transfer: Seq<u8>,
) -> Waiting
    decreases chunks.len(),
{
    if chunks.len() == 0 {
        retx
    } else {
        let front = retx_cancelled(retx, chunks.drop_last(), recipient, transfer);
        let (seq, c) = chunks.last();
        if c.recipient == recipient && c.transfer == transfer {
            without(front, (recipient, seq))
        } else {
            front
        }
    }
}

/// The chunks on their way that belong to other transfers.
pub open spec fn chunks_cancelled(
    chunks: Seq<(u32, ChunkRefView)>,
    recipient: Seq<u8>,
    transfer: Seq<u8>,
) -> Seq<(u32, ChunkRefView)>
    decreases chunks.len(),
{
    if chunks.len() == 0 {
        chunks
    } else {
        let front = chunks_cancelled(chunks.drop_last(), recipient, transfer);
        let c = chunks.last().1;
        if c.recipient == recipient && c.transfer == transfer {
            front
        } else {
            front.push(chunks.last())
        }
    }
}

/// The state after the rest of a transfer was given up.
pub open spec fn cancelled(n: NetState, recipient: Seq<u8>, transfer: Seq<u8>) -> NetState {
    NetState {
        retx: retx_cancelled(n.retx, n.chunk_seqs, recipient, transfer),
        chunk_seqs: chunks_cancelled(n.chunk_seqs, recipient, transfer),
        ..n
    }
}

// ---------- receiving ----------

/// Data with a chunk written at an offset, as far as it fits.
pub open spec fn written(data: Seq<u8>, start: int, chunk: Seq<u8>) -> Seq<u8> {
    if start < data.len() {
        let n = if data.len() - start < chunk.len() {
            data.len() - start
        } else {
            chunk.len() as int
        };
        data.take(start) + chunk.take(n) + data.skip(start + n)
    } else {
        data
    }
}

/// An attachment of which nothing came in yet.
pub open spec fn new_recv(c: ChunkView, now: u64) -> AttachRecvView {
    AttachRecvView {
        kind: c.kind,
        name: c.name,
        total_size: c.total_size,
        total_chunks: c.total,
        data: Seq::new(c.total_size as nat, |i: int| 0u8),
        got: Set::empty(),
        updated: now,
    }
}

/// An attachment with one more chunk; a chunk that came in before counts
/// once.
pub open spec fn recv_with(r: AttachRecvView, c: ChunkView, now: u64) -> AttachRecvView {
    if r.got.contains(c.index) {
        AttachRecvView { updated: now, ..r }
    } else {
        AttachRecvView {
            updated: now,
            got: r.got.insert(c.index),
            data: written(r.data, 2400 * c.index, c.data),
            ..r
        }
    }
}

/// The attachment that a chunk belongs to, with the chunk.
pub open spec fn recv_after(
    recvs: Seq<(Seq<u8>, AttachRecvView)>,
    c: ChunkView,
    now: u64,
) -> AttachRecvView {
    match lookup(recvs, c.transfer) {
        Some(r) => recv_with(r, c, now),
        None => recv_with(new_recv(c, now), c, now),
    }
}

/// The world after a chunk came in: the attachment is handed on once all its
/// chunks are there.
pub open spec fn assembled(w: World, peer: Seq<u8>, ts: u64, c: ChunkView, now: u64) -> World {
    if c.total_size > MAX_ATTACH_TOTAL {
        w
    } else {
        let r = recv_after(w.net.attach_recvs, c, now);
        if r.got.len() == r.total_chunks {
            emitted(
                World {
                    net: NetState {
                        attach_recvs: without(w.net.attach_recvs, c.transfer),
                        ..w.net
                    },
                    ..w
                },
                EventView::AttachReceived { peer, kind: r.kind, name: r.name, data: r.data, ts },
            )
        } else {
            World {
                net: NetState {
                    attach_recvs: put(without(w.net.attach_recvs, c.transfer), c.transfer, r),
                    ..w.net
                },
                ..w
            }
        }
    }
}

/// The attachments that are not too old.
pub open spec fn recvs_kept(
    recvs: Seq<(Seq<u8>, AttachRecvView)>,
    now: u64,
) -> Seq<(Seq<u8>, AttachRecvView)>
    decreases recvs.len(),
{
    if recvs.len() == 0 {
        recvs
    } else {
        let front = recvs_kept(recvs.drop_last(), now);
        if now - recvs.last().1.updated < ATTACH_RECV_TTL {
            front.push(recvs.last())
        } else {
            front
        }
    }
}

fn write_at(data: &mut Vec<u8>, start: u64, chunk: &[u8])
    ensures
        final(data)@ == written(old(data)@, start as int, chunk@),
{
    let len: usize = data.len();
    if start >= len as u64 {
        return;
    }
    let start: usize = start as usize;
    let n: usize = if len - start < chunk.len() {
        len - start
    } else {
        chunk.len()
    };
    let ghost before = data@;
    let mut i: usize = 0;
    while i < n
        invariant
            i <= n <= chunk@.len(),
            start + n <= before.len(),
            before.len() == data@.len() == len,
            forall|j: int| 0 <= j < start ==> data@[j] == before[j],
            forall|j: int| start <= j < start + i ==> data@[j] == chunk@[j - start],
            forall|j: int| start + i <= j < before.len() ==> data@[j] == before[j],
        decreases n - i,
    {
        data[start + i] = chunk[i];
        i = i + 1;
    }
    assert(data@ =~= written(before, start as int, chunk@));
}

fn zeros(n: usize) -> (r: Vec<u8>)
    ensures
        r@ == Seq::new(n as nat, |i: int| 0u8),
{
    let r: Vec<u8> = vec![0u8; n];
    assert(r@ =~= Seq::new(n as nat, |i: int| 0u8));
    r
}

impl Network {
    /// Sends an attachment in chunks, each of which waits for its own
    /// acknowledgement.
    pub fn handle_send_attach(
        &mut self,
        friends: &FriendStore,
        recipient: [u8; 32],
        kind: u8,
        name: &str,
        data: &[u8],
        ts: u64,
        transfer: [u8; 16],
        now: u64,
        out: &mut Vec<Output>,
    )
        ensures
            attaches(
                world(*old(self), *friends, old(out)@),
                world(*final(self), *friends, final(out)@),
                recipient@,
                kind,
                name@,
                data@,
                ts,
                transfer@,
                now,
            ),
            final(self).identity == old(self).identity,
    {
        let ghost w = world(*self, *friends, out@);
        let addrs = self.peer_addrs(friends, &recipient);
        let key = cipher::ed_pub_to_x25519(&recipient);
        if !self.is_friend(friends, &recipient) || key.is_none() || addrs.len() == 0 {
            push_output(out, Output::Event(NetEvent::AttachFailed { to: recipient, transfer }));
            return;
        }
        let recip_xpub = key.unwrap();
        let total: u32 = count_chunks(data.len());
        let ghost mut packets: Seq<Seq<u8>> = Seq::empty();
        let mut i: u32 = 0;
        assert(chunks_dispatched(w, recipient@, transfer@, packets, now) == w);
        proof {
            lemma_chunk_seq(w.net.attach_seq, 0);
        }
        while i < total
            invariant
                i <= total,
                total == chunk_count(data@.len()),
                packets.len() == i,
                addr_views(addrs@) == peer_addrs(friends@, recipient@),
                w.net.me == self@.me,
                primitives::edwards_to_montgomery(recipient@) == Some(recip_xpub@),
                self.attach_seq == chunk_seq(w.net.attach_seq, i as int),
                world(*self, *friends, out@) == chunks_dispatched(
                    w,
                    recipient@,
                    transfer@,
                    packets,
                    now,
                ),
                are_chunk_packets(
                    packets,
                    w.net.me,
                    w.net.attach_seq,
                    recipient@,
                    transfer@,
                    kind,
                    name@,
                    data@,
                    ts,
                ),
                self.identity == old(self).identity,
            decreases total - i,
        {
            let ghost before = world(*self, *friends, out@);
            proof {
                lemma_chunk_seq(w.net.attach_seq, i as int);
            }
            let chunk = make_chunk(transfer, kind, name, data, i);
            self.send_chunk(friends, &addrs, &recipient, &recip_xpub, &chunk, ts, now, out);
            proof {
                let packet = choose|packet: Seq<u8>|
                    is_sealed_packet(
                        before.net.me,
                        PktType::Msg,
                        FLAG_EPHEMERAL,
                        chunk_seq(before.net.attach_seq, 1),
                        recipient@,
                        chunk_inner(chunk@, ts),
                        packet,
                    ) && world(*self, *friends, out@) == #[trigger] chunk_dispatched(
                        before,
                        recipient@,
                        transfer@,
                        i,
                        packet,
                        now,
                    );
                lemma_packets_push(
                    packets,
                    packet,
                    w.net.me,
                    w.net.attach_seq,
                    recipient@,
                    transfer@,
                    kind,
                    name@,
                    data@,
                    ts,
                );
                assert(packets.push(packet).drop_last() =~= packets);
                packets = packets.push(packet);
            }
            i = i + 1;
        }
        let acked: HashSet<u32> = HashSet::new();
        self.attach_sends.insert(transfer, AttachSend { recipient, total_chunks: total, acked });
        assert(world(*self, *friends, out@) =~= attach_sent(
            w,
            recipient@,
            transfer@,
            packets,
            now,
        ));
    }

    /// Sends one chunk under the next sequence number.
    fn send_chunk(
        &mut self,
        friends: &FriendStore,
        addrs: &[SocketAddr],
        recipient: &[u8; 32],
        recip_xpub: &[u8; 32],
        chunk: &AttachChunk,
        ts: u64,
        now: u64,
        out: &mut Vec<Output>,
    )
        requires
            addr_views(addrs@) == peer_addrs(friends@, recipient@),
            primitives::edwards_to_montgomery(recipient@) == Some(recip_xpub@),
            chunk@.data.len() <= 2400,
        ensures
            ({
                let w = world(*old(self), *friends, old(out)@);
                exists|packet: Seq<u8>|
                    is_sealed_packet(
                        w.net.me,
                        PktType::Msg,
                        FLAG_EPHEMERAL,
                        chunk_seq(w.net.attach_seq, 1),
                        recipient@,
                        chunk_inner(chunk@, ts),
                        packet,
                    ) && world(*final(self), *friends, final(out)@) == #[trigger] chunk_dispatched(
                        w,
                        recipient@,
                        chunk@.transfer,
                        chunk.index,
                        packet,
                        now,
                    )
            }),
            final(self).identity == old(self).identity,
            final(self).attach_seq == chunk_seq(old(self).attach_seq, 1),
            final(self)@.me == old(self)@.me,
    {
        let ghost w = world(*self, *friends, out@);
        let inner = encode_attach_chunk(chunk, ts);
        proof {
            lemma_chunk_inner_len(chunk@, ts);
            lemma_chunk_seq(self.attach_seq, 0);
        }
        let seq: u32 = self.attach_seq.wrapping_add(1);
        let bytes = match self.seal_packet(
            PktType::Msg,
            FLAG_EPHEMERAL,
            seq,
            recipient,
            recip_xpub,
            &inner,
        ) {
            Ok(b) => b,
            Err(_) => {
                assert(false);
                return;
            },
        };
        let ghost packet = bytes@;
        self.attach_seq = seq;
        self.send_to_all(&bytes, addrs, out);
        self.chunk_seqs.insert(
            seq,
            ChunkRef { recipient: *recipient, transfer: chunk.transfer, index: chunk.index },
        );
        self.retx.insert(
            PendingPacket {
                bytes,
                recipient: *recipient,
                seq,
                attempts: 0,
                next_retry: time_after(now, RETRY_INTERVAL),
            },
        );
        assert(world(*self, *friends, out@) =~= chunk_dispatched(
            w,
            recipient@,
            chunk@.transfer,
            chunk.index,
            packet,
            now,
        ));
    }

    /// Gives up the chunks of a transfer that are still on their way.
    pub fn cancel_transfer(&mut self, recipient: [u8; 32], transfer: [u8; 16])
        ensures
            final(self)@ == cancelled(old(self)@, recipient@, transfer@),
            final(self).identity == old(self).identity,
    {
        let ghost n = self@;
        let ghost chunks = self.chunk_seqs@;
        let mut kept: Table<u32, ChunkRef> = Table::new();
        let mut i: usize = 0;
        assert(chunks.take(0) =~= Seq::<(u32, ChunkRefView)>::empty());
        while i < self.chunk_seqs.entries.len()
            invariant
                i <= chunks.len(),
                chunks == self.chunk_seqs@,
                chunks == n.chunk_seqs,
                self@ == (NetState {
                    retx: retx_cancelled(n.retx, chunks.take(i as int), recipient@, transfer@),
                    ..n
                }),
                kept@ == chunks_cancelled(chunks.take(i as int), recipient@, transfer@),
                self.identity == old(self).identity,
            decreases chunks.len() - i,
        {
            assert(chunks.take(i + 1).drop_last() =~= chunks.take(i as int));
            let seq: u32 = self.chunk_seqs.entries[i].0;
            let c = ChunkRef {
                recipient: self.chunk_seqs.entries[i].1.recipient,
                transfer: self.chunk_seqs.entries[i].1.transfer,
                index: self.chunk_seqs.entries[i].1.index,
            };
            assert(chunks[i as int] == (seq, c@));
            if same_array(&c.recipient, &recipient) && same_array(&c.transfer, &transfer) {
                let _ = self.retx.ack(&recipient, seq);
            } else {
                let ghost before = kept@;
                kept.entries.push((seq, c));
                assert(kept@ =~= before.push(chunks[i as int]));
            }
            i = i + 1;
        }
        assert(chunks.take(i as int) =~= chunks);
        self.chunk_seqs = kept;
    }

    /// Drops attachments that have been incomplete for too long.
    pub fn prune_attach_recvs(&mut self, now: u64)
        ensures
            final(self)@ == (NetState {
                attach_recvs: recvs_kept(old(self)@.attach_recvs, now),
                ..old(self)@
            }),
            final(self).identity == old(self).identity,
    {
        let ghost all = self.attach_recvs@;
        let mut i: usize = 0;
        let ghost mut done: int = 0;
        assert(self.attach_recvs@ =~= recvs_kept(all.take(0), now) + all.skip(0));
        while i < self.attach_recvs.entries.len()
            invariant
                0 <= done <= all.len(),
                i <= self.attach_recvs.entries@.len(),
                self.attach_recvs.entries@.len() - i == all.len() - done,
                i == recvs_kept(all.take(done), now).len(),
                self.attach_recvs@ == recvs_kept(all.take(done), now) + all.skip(done),
                self@ == (NetState { attach_recvs: self.attach_recvs@, ..old(self)@ }),
                self.identity == old(self).identity,
            decreases self.attach_recvs.entries@.len() - i,
        {
            let ghost kept = recvs_kept(all.take(done), now);
            let ghost whole = self.attach_recvs@;
            assert(whole[i as int] == all[done]);
            assert(all.take(done + 1).drop_last() =~= all.take(done));
            if now.saturating_sub(self.attach_recvs.entries[i].1.updated) >= ATTACH_RECV_TTL {
                let _ = self.attach_recvs.entries.remove(i);
                assert(self.attach_recvs@ =~= whole.remove(i as int));
                assert(self.attach_recvs@ =~= kept + all.skip(done + 1));
            } else {
                assert(self.attach_recvs@ =~= kept.push(all[done]) + all.skip(done + 1));
                i = i + 1;
            }
            proof {
                done = done + 1;
            }
        }
        assert(all.take(done) =~= all);
        assert(self.attach_recvs@ =~= recvs_kept(all, now));
    }

    /// Puts a chunk that came in where it belongs.
    pub fn assemble_attach(
        &mut self,
        friends: &FriendStore,
        from: &[u8; 32],
        ts: u64,
        chunk: AttachChunk,
        now: u64,
        out: &mut Vec<Output>,
    )
        ensures
            world(*final(self), *friends, final(out)@) == assembled(
                world(*old(self), *friends, old(out)@),
                from@,
                ts,
                chunk@,
                now,
            ),
            final(self).identity == old(self).identity,
    {
        let ghost w = world(*self, *friends, out@);
        let ghost c = chunk@;
        if chunk.total_size > MAX_ATTACH_TOTAL {
            return;
        }
        let transfer: [u8; 16] = chunk.transfer;
        let mut r = match self.attach_recvs.remove(&transfer) {
            Some(r) => r,
            None => fresh_recv(&chunk, now),
        };
        let ghost r0 = r@;
        r.updated = now;
        if r.got.insert(chunk.index) {
            write_at(&mut r.data, 2400 * chunk.index as u64, &chunk.data);
        }
        assert(r@ =~= recv_with(r0, c, now));
        if r.got.len() == r.total_chunks as usize {
            push_output(
                out,
                Output::Event(
                    NetEvent::AttachReceived {
                        from: *from,
                        kind: r.kind,
                        name: r.name,
                        data: r.data,
                        ts,
                    },
                ),
            );
            assert(world(*self, *friends, out@) =~= assembled(w, from@, ts, c, now));
        } else {
            self.attach_recvs.insert(transfer, r);
            assert(world(*self, *friends, out@) =~= assembled(w, from@, ts, c, now));
        }
    }
}

fn fresh_recv(chunk: &AttachChunk, now: u64) -> (r: AttachRecv)
    requires
        chunk.total_size <= MAX_ATTACH_TOTAL,
    ensures
        r@ == new_recv(chunk@, now),
{
    let got: HashSet<u32> = HashSet::new();
    AttachRecv {
        kind: chunk.kind,
        name: chunk.name.clone(),
        total_size: chunk.total_size,
        total_chunks: chunk.total,
        data: zeros(chunk.total_size as usize),
        got,
        updated: now,
    }
}

/// A chunk begins within the data.
proof fn lemma_chunk_bounds(data: Seq<u8>, i: int)
    requires
        0 <= i < chunk_count(data.len()),
        data.len() <= usize::MAX,
    ensures
        2400 * i <= data.len(),
{
}

/// The plaintext of a chunk is short.
proof fn lemma_chunk_inner_len(c: ChunkView, ts: u64)
    requires
        c.transfer.len() == 16,
        c.data.len() <= 2400,
    ensures
        chunk_inner(c, ts).len() <= 3000,
{
    reveal(chunk_body);
}

} // verus!
