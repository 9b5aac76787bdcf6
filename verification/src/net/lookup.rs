//! Passive addressing: asking common friends for the address of a friend.
//!
//! A query goes one hop: whoever is asked answers from its own friend list
//! and never asks further.

use vstd::prelude::*;

use crate::bytes::same_array;
use crate::crypto::cipher;
use crate::crypto::id;
use crate::crypto::primitives;
use crate::net::event::{outs, push_output, EventView, NetEvent, OutView, Output};
use crate::net::ip::{AddrView, SocketAddr};
use crate::net::node::{
    addr_views, dispatched, emitted, is_sealed_packet, payload_plain, peer_addrs, reads_honest,
    retried_failed, sent_to, world, NetError, NetState, Network, PendingQuery, QueryView, World,
};
use crate::net::packet::{Packet, PacketView, PktType};
use crate::net::pushes::delivers_pushes;
use crate::net::retransmit::{after, time_after, PendingPacket, RETRY_INTERVAL};
use crate::net::rounds::{
    are_sealed_for, bytes_of, friend_keys, keys_but, other_friend_keys, peers_of, peers_sent,
    sealable, Addressed,
};
use crate::table::{lookup, put, without};
use crate::proto::addressing::{
    addr_answer_bytes, addr_answer_of, addr_query_bytes, decode_addr_answer, decode_addr_query,
    encode_addr_answer, encode_addr_query, keys, AnswerView,
};
use crate::proto::ProtoError;
use crate::store::friends::{book_merged, friend_of, has_friend, FriendStore, FriendView};
use crate::text::{decimal, push_decimal, texts};

verus! {

/// Milliseconds after which a query is over.
pub const ADDR_QUERY_TIMEOUT: u64 = 6_000;

/// Milliseconds between two transmissions of a query.
pub const ADDR_QUERY_RETRY_INTERVAL: u64 = 2_000;

/// How often a query is repeated.
pub const ADDR_QUERY_MAX_RETRIES: u8 = 2;

// ---------- being asked ----------

/// The addresses that an answer names: those of the target, if the asker and
/// the target are both friends.
pub open spec fn answer_ips(
    book: Seq<FriendView>,
    asker: Seq<u8>,
    target: Seq<u8>,
) -> Seq<Seq<char>> {
    if has_friend(book, asker) {
        match friend_of(book, target) {
            Some(f) => f.ips,
            None => Seq::empty(),
        }
    } else {
        Seq::empty()
    }
}

/// The plaintext of the answer to a query plaintext.
pub open spec fn answer_to(book: Seq<FriendView>, asker: Seq<u8>, query: Seq<u8>) -> Seq<u8> {
    let target = query.subrange(1, 33);
    addr_answer_bytes(target, query.subrange(33, 49), answer_ips(book, asker, target))
}

/// Whether `w2` is `w` after an answer was sent.
pub open spec fn sends_answer(
    w: World,
    w2: World,
    asker: Seq<u8>,
    inner: Seq<u8>,
    src: AddrView,
) -> bool {
    exists|bytes: Seq<u8>|
        is_sealed_packet(w.net.me, PktType::AddrAnswer, 0, 0, asker, inner, bytes) && w2
            == #[trigger] sent_to(w, src, bytes)
}

/// What an address query does: it is answered, and addresses that wait for
/// the asker go along.
pub open spec fn addr_query_step(
    w: World,
    w2: World,
    p: PacketView,
    src: AddrView,
    now: u64,
    r: Result<(), NetError>,
) -> bool {
    match payload_plain(w.net.me, p) {
        Err(e) => r == Err::<(), NetError>(e) && w2 == w,
        Ok(plain) => if plain.len() != 53 {
            r == Err::<(), NetError>(NetError::Proto(ProtoError::QueryLength)) && w2 == w
        } else {
            let inner = answer_to(w.book, p.sender_id, plain);
            if !primitives::gcm_fits(inner.len()) {
                r == Err::<(), NetError>(NetError::Cipher(cipher::CipherError::Encrypt)) && w2 == w
            } else {
                &&& r is Ok
                &&& exists|a: World| #[trigger]
                    sends_answer(w, a, p.sender_id, inner, src) && delivers_pushes(
                        a,
                        w2,
                        p.sender_id,
                        now,
                    )
            }
        },
    }
}

// ---------- being answered ----------

/// A list of keys with one more, if it is new.
pub open spec fn with_key(v: Seq<Seq<u8>>, k: Seq<u8>) -> Seq<Seq<u8>> {
    if v.contains(k) {
        v
    } else {
        v.push(k)
    }
}

/// The world after the failed packets with the given numbers were sent again,
/// which needs a known address.
pub open spec fn numbers_resent(w: World, target: Seq<u8>, seqs: Seq<u32>, now: u64) -> World
    decreases seqs.len(),
{
    if seqs.len() == 0 {
        w
    } else {
        let front = numbers_resent(w, target, seqs.drop_last(), now);
        let key = (target, seqs.last());
        match lookup(front.net.failed_sends, key) {
            Some(bytes) => if peer_addrs(front.book, target).len() == 0 {
                front
            } else {
                dispatched(
                    World {
                        net: NetState {
                            failed_sends: without(front.net.failed_sends, key),
                            ..front.net
                        },
                        ..front
                    },
                    target,
                    seqs.last(),
                    bytes,
                    now,
                )
            },
            None => front,
        }
    }
}

/// The world after addresses of the target were learnt: they are merged, and
/// what could not be delivered is sent again.
pub open spec fn learnt(
    w: World,
    target: Seq<u8>,
    ips: Seq<Seq<char>>,
    seqs: Seq<u32>,
    now: u64,
) -> World {
    let book = book_merged(w.book, target, ips);
    let a = if book == w.book {
        w
    } else {
        retried_failed(World { book, unsaved: true, ..w }, target, now)
    };
    numbers_resent(a, target, seqs, now)
}

/// The world after an answer of a peer. One about another user than the
/// query's changes nothing.
pub open spec fn answered(w: World, peer: Seq<u8>, a: AnswerView, now: u64) -> World {
    match lookup(w.net.addr_queries, a.nonce_q) {
        None => w,
        Some(q) => {
            let w1 = World {
                net: NetState {
                    addr_queries: without(w.net.addr_queries, a.nonce_q),
                    ..w.net
                },
                ..w
            };
            if a.target_id != q.target {
                w
            } else {
                let now_answered = with_key(q.answered, peer);
                if a.hit && a.ips.len() > 0 {
                    emitted(
                        learnt(w1, q.target, a.ips, q.fail_seqs, now),
                        EventView::AddrResult { peer: q.target, found: true, count: a.ips.len() },
                    )
                } else if unanswered(q.asked, now_answered).len() == 0 {
                    emitted(
                        w1,
                        EventView::AddrResult { peer: q.target, found: false, count: 0 },
                    )
                } else {
                    World {
                        net: NetState {
                            addr_queries: put(
                                w1.net.addr_queries,
                                a.nonce_q,
                                QueryView { answered: now_answered, ..q },
                            ),
                            ..w1.net
                        },
                        ..w1
                    }
                }
            }
        },
    }
}

/// What an address answer does.
pub open spec fn addr_answer_step(
    w: World,
    w2: World,
    p: PacketView,
    now: u64,
    r: Result<(), NetError>,
) -> bool {
    match payload_plain(w.net.me, p) {
        Err(e) => r == Err::<(), NetError>(e) && w2 == w,
        Ok(plain) => match addr_answer_of(plain) {
            Err(e) => r == Err::<(), NetError>(NetError::Proto(e)) && w2 == w,
            Ok(a) => r is Ok && w2 == answered(w, p.sender_id, a, now),
        },
    }
}

// ---------- the passing of time ----------

/// Whether a query has run out.
pub open spec fn query_expired(q: QueryView, now: u64) -> bool {
    now >= after(q.started, ADDR_QUERY_TIMEOUT)
}

/// The queries that have not run out.
pub open spec fn queries_kept(
    qs: Seq<(Seq<u8>, QueryView)>,
    now: u64,
) -> Seq<(Seq<u8>, QueryView)>
    decreases qs.len(),
{
    if qs.len() == 0 {
        qs
    } else {
        let front = queries_kept(qs.drop_last(), now);
        if query_expired(qs.last().1, now) {
            front
        } else {
            front.push(qs.last())
        }
    }
}

/// The outputs with the result of every query that has run out.
pub open spec fn expiry_events(
    out: Seq<OutView>,
    qs: Seq<(Seq<u8>, QueryView)>,
    now: u64,
) -> Seq<OutView>
    decreases qs.len(),
{
    if qs.len() == 0 {
        out
    } else {
        let front = expiry_events(out, qs.drop_last(), now);
        let q = qs.last().1;
        if query_expired(q, now) {
            front.push(
                OutView::Event(EventView::AddrResult { peer: q.target, found: false, count: 0 }),
            )
        } else {
            front
        }
    }
}

/// The world after queries that have run out were closed.
pub open spec fn queries_checked(w: World, now: u64) -> World {
    World {
        net: NetState { addr_queries: queries_kept(w.net.addr_queries, now), ..w.net },
        out: expiry_events(w.out, w.net.addr_queries, now),
        ..w
    }
}

/// Whether a query is to be repeated.
pub open spec fn query_due(q: QueryView, now: u64) -> bool {
    now >= q.next_retry && q.attempts < ADDR_QUERY_MAX_RETRIES
}

/// A query that is repeated.
pub open spec fn query_bumped(q: QueryView, now: u64) -> QueryView {
    QueryView {
        attempts: (q.attempts + 1) as u8,
        next_retry: after(now, ADDR_QUERY_RETRY_INTERVAL),
        ..q
    }
}

/// Those who were asked and have not answered.
pub open spec fn unanswered(asked: Seq<Seq<u8>>, answered: Seq<Seq<u8>>) -> Seq<Seq<u8>>
    decreases asked.len(),
{
    if asked.len() == 0 {
        asked
    } else {
        let front = unanswered(asked.drop_last(), answered);
        if answered.contains(asked.last()) {
            front
        } else {
            front.push(asked.last())
        }
    }
}

/// Whether `w2` is `w` after peers were asked for an address.
pub open spec fn asks(
    w: World,
    w2: World,
    peers: Seq<Seq<u8>>,
    target: Seq<u8>,
    nonce: Seq<u8>,
) -> bool {
    let inner = addr_query_bytes(target, nonce, 0);
    let to = sealable(peers, inner.len());
    exists|packets: Seq<Seq<u8>>|
        are_sealed_for(w.net.me, PktType::AddrQuery, 0, to, inner, packets) && w2
            == #[trigger] peers_sent(w, to, packets)
}

/// Whether `w2` is `w` after the query at index `i` was repeated if due.
pub open spec fn repeats_query(w: World, w2: World, i: int, now: u64) -> bool {
    let (nonce, q) = w.net.addr_queries[i];
    if query_due(q, now) {
        asks(
            World {
                net: NetState {
                    addr_queries: w.net.addr_queries.update(i, (nonce, query_bumped(q, now))),
                    ..w.net
                },
                ..w
            },
            w2,
            unanswered(q.asked, q.answered),
            q.target,
            nonce,
        )
    } else {
        w2 == w
    }
}

/// Whether step `i` repeats the query at index `i` if due.
pub open spec fn repeats_at(steps: Seq<World>, i: int, now: u64) -> bool {
    repeats_query(steps[i], steps[i + 1], i, now)
}

/// Whether `steps` leads from `w` to `w2`, repeating one query after the
/// other.
pub open spec fn repeats_by(w: World, w2: World, steps: Seq<World>, now: u64) -> bool {
    &&& steps.len() == w.net.addr_queries.len() + 1
    &&& steps[0] == w
    &&& steps.last() == w2
    &&& forall|i: int|
        0 <= i < w.net.addr_queries.len() ==> #[trigger] repeats_at(steps, i, now)
}

/// Whether `w2` is `w` after all queries that are due were repeated.
pub open spec fn repeats_queries(w: World, w2: World, now: u64) -> bool {
    exists|steps: Seq<World>| #[trigger] repeats_by(w, w2, steps, now)
}

// ---------- asking ----------

/// The numbers of the packets that could not be delivered to someone.
pub open spec fn failed_numbers(
    failed: Seq<((Seq<u8>, u32), Seq<u8>)>,
    who: Seq<u8>,
) -> Seq<u32>
    decreases failed.len(),
{
    if failed.len() == 0 {
        Seq::empty()
    } else {
        let front = failed_numbers(failed.drop_last(), who);
        let key = failed.last().0;
        if key.0 == who {
            front.push(key.1)
        } else {
            front
        }
    }
}

/// What is shown while friends are asked.
pub open spec fn asking_text(target: Seq<u8>, asked: nat) -> Seq<char> {
    "正在向 "@ + decimal(asked) + " 位共同好友询问 "@ + id::hex_text(target).take(12) + " 的新地址…"@
}

/// The friends that are asked for the address of one of them.
pub open spec fn askable(book: Seq<FriendView>, target: Seq<u8>) -> Seq<Seq<u8>> {
    sealable(keys_but(friend_keys(book), target), 53)
}

/// A query that was just sent.
pub open spec fn new_query(w: World, target: Seq<u8>, now: u64) -> QueryView {
    QueryView {
        target,
        started: now,
        asked: askable(w.book, target),
        answered: Seq::empty(),
        fail_seqs: failed_numbers(w.net.failed_sends, target),
        attempts: 0,
        next_retry: after(now, ADDR_QUERY_RETRY_INTERVAL),
    }
}

/// The world after the query itself went out, with what is shown and kept.
pub open spec fn query_opened(w: World, a: World, target: Seq<u8>, nonce: Seq<u8>, now: u64) -> World {
    let q = new_query(w, target, now);
    let s = emitted(a, EventView::Status(asking_text(target, q.asked.len())));
    World {
        net: NetState { addr_queries: put(s.net.addr_queries, nonce, q), ..s.net },
        ..s
    }
}

/// Whether `w2` is `w` after the user asked for the address of a friend.
pub open spec fn finds_address(w: World, w2: World, target: Seq<u8>, now: u64) -> bool {
    if target == w.net.me.ed_pub {
        w2 == emitted(w, EventView::Status("不能查询自己"@))
    } else if !has_friend(w.book, target) {
        w2 == emitted(w, EventView::Status("目标不是好友"@))
    } else if askable(w.book, target).len() == 0 {
        w2 == emitted(w, EventView::Status("没有可询问的共同好友"@))
    } else {
        exists|a: World, nonce: Seq<u8>|
            nonce.len() == 16 && #[trigger] asks(
                w,
                a,
                keys_but(friend_keys(w.book), target),
                target,
                nonce,
            ) && w2 == query_opened(w, a, target, nonce, now)
    }
}

impl Network {
    /// Answers a query. Only if the asker and the target are both friends
    /// does the answer name addresses.
    pub fn handle_addr_query(
        &mut self,
        friends: &FriendStore,
        p: &Packet,
        src: SocketAddr,
        now: u64,
        out: &mut Vec<Output>,
    ) -> (r: Result<(), NetError>)
        ensures
            addr_query_step(
                world(*old(self), *friends, old(out)@),
                world(*final(self), *friends, final(out)@),
                p@,
                src@,
                now,
                r,
            ),
            old(self).identity.wf() ==> reads_honest(old(self)@.me, p@),
            final(self).identity == old(self).identity,
    {
        let ghost w = world(*self, *friends, out@);
        let plain = match self.open_payload(p) {
            Ok(plain) => plain,
            Err(e) => {
                return Err(e);
            },
        };
        let q = match decode_addr_query(&plain) {
            Ok(q) => q,
            Err(e) => {
                return Err(NetError::Proto(e));
            },
        };
        let mut ips: Vec<String> = Vec::new();
        if friends.contains(&p.sender_id) {
            match friends.get(&q.target_id) {
                Some(f) => {
                    ips = f.ips;
                },
                None => {},
            }
        }
        assert(texts(ips@) =~= answer_ips(friends@, p@.sender_id, q.target_id@));
        let inner = encode_addr_answer(&q.target_id, &q.nonce_q, &ips);
        let x = match cipher::ed_pub_to_x25519(&p.sender_id) {
            Some(x) => x,
            None => {
                assert(false);
                return Err(NetError::NoKey);
            },
        };
        let bytes = match self.seal_packet(PktType::AddrAnswer, 0, 0, &p.sender_id, &x, &inner) {
            Ok(b) => b,
            Err(e) => {
                return Err(e);
            },
        };
        self.send_to_addr(&bytes, src, out);
        let ghost a = world(*self, *friends, out@);
        assert(a =~= sent_to(w, src@, bytes@));
        assert(sends_answer(w, a, p@.sender_id, inner@, src@));
        self.deliver_pending_pushes(friends, &p.sender_id, now, out);
        Ok(())
    }

    /// Takes in an answer: addresses are merged and what could not be
    /// delivered is sent again. The query ends with the first hit, or when
    /// all have answered.
    pub fn handle_addr_answer(
        &mut self,
        friends: &mut FriendStore,
        p: &Packet,
        now: u64,
        out: &mut Vec<Output>,
    ) -> (r: Result<(), NetError>)
        ensures
            addr_answer_step(
                world(*old(self), *old(friends), old(out)@),
                world(*final(self), *final(friends), final(out)@),
                p@,
                now,
                r,
            ),
            old(self).identity.wf() ==> reads_honest(old(self)@.me, p@),
            final(self).identity == old(self).identity,
    {
        let ghost w = world(*self, *friends, out@);
        let plain = match self.open_payload(p) {
            Ok(plain) => plain,
            Err(e) => {
                return Err(e);
            },
        };
        let a = match decode_addr_answer(&plain) {
            Ok(a) => a,
            Err(e) => {
                return Err(NetError::Proto(e));
            },
        };
        let ghost av = a@;
        let about = match self.addr_queries.get(&a.nonce_q) {
            Some(q) => same_array(&a.target_id, &q.target),
            None => false,
        };
        if !about {
            return Ok(());
        }
        let mut q = match self.addr_queries.remove(&a.nonce_q) {
            Some(q) => q,
            None => {
                return Ok(());
            },
        };
        let ghost qv = q@;
        let ghost w1 = world(*self, *friends, out@);
        add_key(&mut q.answered, &p.sender_id);
        if a.hit && a.ips.len() > 0 {
            self.learn(friends, &q.target, &a.ips, &q.fail_seqs, now, out);
            let ghost l = world(*self, *friends, out@);
            push_output(
                out,
                Output::Event(
                    NetEvent::AddrResult { target: q.target, found: true, count: a.ips.len() },
                ),
            );
            assert(world(*self, *friends, out@) =~= emitted(
                l,
                EventView::AddrResult { peer: qv.target, found: true, count: av.ips.len() },
            ));
        } else if not_answered(&q.asked, &q.answered).len() == 0 {
            push_output(
                out,
                Output::Event(
                    NetEvent::AddrResult { target: q.target, found: false, count: 0 },
                ),
            );
        } else {
            assert(q@ =~= QueryView { answered: with_key(qv.answered, p@.sender_id), ..qv });
            self.addr_queries.insert(a.nonce_q, q);
        }
        assert(world(*self, *friends, out@) =~= answered(w, p@.sender_id, av, now));
        Ok(())
    }

    fn learn(
        &mut self,
        friends: &mut FriendStore,
        target: &[u8; 32],
        ips: &[String],
        seqs: &[u32],
        now: u64,
        out: &mut Vec<Output>,
    )
        ensures
            world(*final(self), *final(friends), final(out)@) == learnt(
                world(*old(self), *old(friends), old(out)@),
                target@,
                texts(ips@),
                seqs@,
                now,
            ),
            final(self).identity == old(self).identity,
    {
        let ghost w = world(*self, *friends, out@);
        if friends.merge_ips(target, ips) {
            assert(world(*self, *friends, out@) =~= (World {
                book: friends@,
                unsaved: true,
                ..w
            }));
            self.retry_failed_for(friends, target, now, out);
        }
        self.resend_numbers(friends, target, seqs, now, out);
    }

    fn resend_numbers(
        &mut self,
        friends: &FriendStore,
        target: &[u8; 32],
        seqs: &[u32],
        now: u64,
        out: &mut Vec<Output>,
    )
        ensures
            world(*final(self), *friends, final(out)@) == numbers_resent(
                world(*old(self), *friends, old(out)@),
                target@,
                seqs@,
                now,
            ),
            final(self).identity == old(self).identity,
    {
        let ghost w = world(*self, *friends, out@);
        let addrs = self.peer_addrs(friends, target);
        let mut i: usize = 0;
        assert(seqs@.take(0) =~= Seq::<u32>::empty());
        while i < seqs.len()
            invariant
                i <= seqs@.len(),
                addr_views(addrs@) == peer_addrs(friends@, target@),
                world(*self, *friends, out@) == numbers_resent(
                    w,
                    target@,
                    seqs@.take(i as int),
                    now,
                ),
                self.identity == old(self).identity,
            decreases seqs@.len() - i,
        {
            let ghost cur = world(*self, *friends, out@);
            let seq: u32 = seqs[i];
            assert(seqs@.take(i + 1).drop_last() =~= seqs@.take(i as int));
            if addrs.len() > 0 {
                match self.failed_sends.remove(&(*target, seq)) {
                    Some(bytes) => {
                        self.send_to_all(&bytes, &addrs, out);
                        let ghost packet = bytes@;
                        self.retx.insert(
                            PendingPacket {
                                bytes,
                                recipient: *target,
                                seq,
                                attempts: 0,
                                next_retry: time_after(now, RETRY_INTERVAL),
                            },
                        );
                        assert(world(*self, *friends, out@) =~= numbers_resent(
                            w,
                            target@,
                            seqs@.take(i + 1),
                            now,
                        ));
                    },
                    None => {
                        proof {
                            crate::table::lemma_without(
                                cur.net.failed_sends,
                                (target@, seq),
                            );
                        }
                        assert(world(*self, *friends, out@) =~= cur);
                    },
                }
            }
            i = i + 1;
        }
        assert(seqs@.take(i as int) =~= seqs@);
    }

    /// Closes queries that have run out.
    pub fn check_addr_queries(&mut self, friends: &FriendStore, now: u64, out: &mut Vec<Output>)
        ensures
            world(*final(self), *friends, final(out)@) == queries_checked(
                world(*old(self), *friends, old(out)@),
                now,
            ),
            final(self).identity == old(self).identity,
    {
        let ghost w = world(*self, *friends, out@);
        let ghost all = self.addr_queries@;
        let mut i: usize = 0;
        let ghost mut done: int = 0;
        assert(self.addr_queries@ =~= queries_kept(all.take(0), now) + all.skip(0));
        while i < self.addr_queries.entries.len()
            invariant
                0 <= done <= all.len(),
                i <= self.addr_queries.entries@.len(),
                self.addr_queries.entries@.len() - i == all.len() - done,
                i == queries_kept(all.take(done), now).len(),
                self.addr_queries@ == queries_kept(all.take(done), now) + all.skip(done),
                outs(out@) == expiry_events(w.out, all.take(done), now),
                self@ == (NetState { addr_queries: self.addr_queries@, ..w.net }),
                self.identity == old(self).identity,
            decreases self.addr_queries.entries@.len() - i,
        {
            let ghost kept = queries_kept(all.take(done), now);
            let ghost whole = self.addr_queries@;
            assert(whole[i as int] == all[done]);
            assert(all.take(done + 1).drop_last() =~= all.take(done));
            if now >= time_after(self.addr_queries.entries[i].1.started, ADDR_QUERY_TIMEOUT) {
                let (_, q) = self.addr_queries.entries.remove(i);
                assert(self.addr_queries@ =~= whole.remove(i as int));
                assert(self.addr_queries@ =~= kept + all.skip(done + 1));
                push_output(
                    out,
                    Output::Event(
                        NetEvent::AddrResult { target: q.target, found: false, count: 0 },
                    ),
                );
            } else {
                assert(self.addr_queries@ =~= kept.push(all[done]) + all.skip(done + 1));
                i = i + 1;
            }
            proof {
                done = done + 1;
            }
        }
        assert(all.take(done) =~= all);
        assert(self.addr_queries@ =~= queries_kept(all, now));
    }

    /// Asks peers for the address of a friend; returns those who were asked.
    fn ask_peers(
        &self,
        friends: &FriendStore,
        peers: &[[u8; 32]],
        target: &[u8; 32],
        nonce: &[u8; 16],
        out: &mut Vec<Output>,
    ) -> (r: Vec<[u8; 32]>)
        ensures
            asks(
                world(*self, *friends, old(out)@),
                world(*self, *friends, final(out)@),
                keys(peers@),
                target@,
                nonce@,
            ),
            keys(r@) == sealable(keys(peers@), 53),
    {
        let ghost w = world(*self, *friends, out@);
        let inner = encode_addr_query(target, nonce, 0);
        assert(inner@.len() == 53);
        let sent = self.send_round(friends, PktType::AddrQuery, 0, peers, &inner, out);
        assert(are_sealed_for(
            w.net.me,
            PktType::AddrQuery,
            0,
            sealable(keys(peers@), inner@.len()),
            inner@,
            bytes_of(sent@),
        ));
        peers_list(&sent)
    }

    /// Repeats queries that are due, to those who have not answered.
    pub fn retry_addr_queries(&mut self, friends: &FriendStore, now: u64, out: &mut Vec<Output>)
        ensures
            repeats_queries(
                world(*old(self), *friends, old(out)@),
                world(*final(self), *friends, final(out)@),
                now,
            ),
            final(self).identity == old(self).identity,
    {
        let ghost w = world(*self, *friends, out@);
        let ghost mut steps: Seq<World> = seq![w];
        let mut i: usize = 0;
        while i < self.addr_queries.entries.len()
            invariant
                i <= self.addr_queries.entries@.len(),
                self.addr_queries.entries@.len() == w.net.addr_queries.len(),
                steps.len() == i + 1,
                steps[0] == w,
                steps.last() == world(*self, *friends, out@),
                forall|j: int| 0 <= j < i ==> #[trigger] repeats_at(steps, j, now),
                self.identity == old(self).identity,
            decreases self.addr_queries.entries@.len() - i,
        {
            let ghost old_steps = steps;
            self.repeat_query(friends, i, now, out);
            proof {
                steps = steps.push(world(*self, *friends, out@));
                assert forall|j: int| 0 <= j < i + 1 implies #[trigger] repeats_at(
                    steps,
                    j,
                    now,
                ) by {
                    if j < i {
                        assert(repeats_at(old_steps, j, now));
                        assert(steps[j] == old_steps[j] && steps[j + 1] == old_steps[j + 1]);
                    }
                }
            }
            i = i + 1;
        }
        assert(repeats_by(w, world(*self, *friends, out@), steps, now));
    }

    fn repeat_query(
        &mut self,
        friends: &FriendStore,
        i: usize,
        now: u64,
        out: &mut Vec<Output>,
    )
        requires
            i < old(self)@.addr_queries.len(),
        ensures
            repeats_query(
                world(*old(self), *friends, old(out)@),
                world(*final(self), *friends, final(out)@),
                i as int,
                now,
            ),
            final(self)@.addr_queries.len() == old(self)@.addr_queries.len(),
            final(self).identity == old(self).identity,
    {
        let ghost w = world(*self, *friends, out@);
        let ghost (nonce, qv) = w.net.addr_queries[i as int];
        if now < self.addr_queries.entries[i].1.next_retry
            || self.addr_queries.entries[i].1.attempts >= ADDR_QUERY_MAX_RETRIES {
            return;
        }
        let nonce_q: [u8; 16] = self.addr_queries.entries[i].0;
        let q = self.addr_queries.value_mut(i);
        q.attempts = q.attempts + 1;
        q.next_retry = time_after(now, ADDR_QUERY_RETRY_INTERVAL);
        let target: [u8; 32] = q.target;
        let peers = not_answered(&q.asked, &q.answered);
        proof {
            assert(q@ =~= query_bumped(qv, now));
        }
        let ghost w1 = world(*self, *friends, out@);
        proof {
            assert(w1 =~= (World {
                net: NetState {
                    addr_queries: w.net.addr_queries.update(
                        i as int,
                        (nonce, query_bumped(qv, now)),
                    ),
                    ..w.net
                },
                ..w
            }));
        }
        let _ = self.ask_peers(friends, &peers, &target, &nonce_q, out);
    }

    /// Asks all other friends for the address of one of them, once.
    pub fn handle_find_address(
        &mut self,
        friends: &FriendStore,
        target: [u8; 32],
        now: u64,
        out: &mut Vec<Output>,
    )
        ensures
            finds_address(
                world(*old(self), *friends, old(out)@),
                world(*final(self), *friends, final(out)@),
                target@,
                now,
            ),
            final(self).identity == old(self).identity,
    {
        let ghost w = world(*self, *friends, out@);
        if same_array(&target, &self.identity.ed_pub) {
            push_output(out, Output::Event(NetEvent::Status("不能查询自己".to_owned())));
            return;
        }
        if !self.is_friend(friends, &target) {
            push_output(out, Output::Event(NetEvent::Status("目标不是好友".to_owned())));
            return;
        }
        let candidates = other_friend_keys(friends, &target);
        let nonce: [u8; 16] = primitives::random_bytes::<16>();
        let asked = self.ask_peers(friends, &candidates, &target, &nonce, out);
        let ghost a = world(*self, *friends, out@);
        if asked.len() == 0 {
            proof {
                lemma_asks_nobody(w, a, keys(candidates@), target@, nonce@);
            }
            push_output(
                out,
                Output::Event(NetEvent::Status("没有可询问的共同好友".to_owned())),
            );
            assert(world(*self, *friends, out@) =~= emitted(
                w,
                EventView::Status("没有可询问的共同好友"@),
            ));
            return;
        }
        let mut s = "正在向 ".to_owned();
        push_decimal(&mut s, asked.len() as u64);
        s.append(" 位共同好友询问 ");
        s.append(&id::short(&target));
        s.append(" 的新地址…");
        assert(s@ =~= asking_text(target@, asked@.len()));
        push_output(out, Output::Event(NetEvent::Status(s)));
        let fail_seqs = self.numbers_failed(&target);
        let answered: Vec<[u8; 32]> = Vec::new();
        let q = PendingQuery {
            target,
            started: now,
            asked,
            answered,
            fail_seqs,
            attempts: 0,
            next_retry: time_after(now, ADDR_QUERY_RETRY_INTERVAL),
        };
        proof {
            assert(keys(answered@) =~= Seq::<Seq<u8>>::empty());
            assert(q@ =~= new_query(w, target@, now));
        }
        self.addr_queries.insert(nonce, q);
        assert(world(*self, *friends, out@) =~= query_opened(w, a, target@, nonce@, now));
    }

    fn numbers_failed(&self, who: &[u8; 32]) -> (r: Vec<u32>)
        ensures
            r@ == failed_numbers(self@.failed_sends, who@),
    {
        let ghost all = self@.failed_sends;
        let mut r: Vec<u32> = Vec::new();
        let mut i: usize = 0;
        assert(r@ =~= failed_numbers(all.take(0), who@));
        while i < self.failed_sends.entries.len()
            invariant
                i <= self.failed_sends.entries@.len(),
                all == self@.failed_sends,
                r@ == failed_numbers(all.take(i as int), who@),
            decreases self.failed_sends.entries@.len() - i,
        {
            assert(all.take(i + 1).drop_last() =~= all.take(i as int));
            assert(all[i as int].0 == self.failed_sends.entries@[i as int].0@);
            if same_array(&self.failed_sends.entries[i].0.0, who) {
                r.push(self.failed_sends.entries[i].0.1);
            }
            i = i + 1;
        }
        assert(all.take(i as int) =~= all);
        r
    }
}

/// Asking nobody sends nothing.
proof fn lemma_asks_nobody(
    w: World,
    a: World,
    peers: Seq<Seq<u8>>,
    target: Seq<u8>,
    nonce: Seq<u8>,
)
    requires
        asks(w, a, peers, target, nonce),
        target.len() == 32,
        nonce.len() == 16,
        sealable(peers, 53).len() == 0,
    ensures
        a == w,
{
    let inner = addr_query_bytes(target, nonce, 0);
    assert(inner.len() == 53);
    let to = sealable(peers, inner.len());
    let packets = choose|packets: Seq<Seq<u8>>|
        are_sealed_for(w.net.me, PktType::AddrQuery, 0, to, inner, packets) && a
            == #[trigger] peers_sent(w, to, packets);
    assert(packets.len() == 0);
}

fn has_key_in(v: &[[u8; 32]], k: &[u8; 32]) -> (r: bool)
    ensures
        r == keys(v@).contains(k@),
{
    let mut i: usize = 0;
    while i < v.len()
        invariant
            i <= v@.len(),
            forall|j: int| 0 <= j < i ==> keys(v@)[j] != k@,
        decreases v@.len() - i,
    {
        if same_array(&v[i], k) {
            assert(keys(v@)[i as int] == k@);
            return true;
        }
        i = i + 1;
    }
    false
}

fn add_key(v: &mut Vec<[u8; 32]>, k: &[u8; 32])
    ensures
        keys(final(v)@) == with_key(keys(old(v)@), k@),
{
    if !has_key_in(v, k) {
        let ghost before = keys(v@);
        v.push(*k);
        assert(keys(v@) =~= before.push(k@));
    }
}

fn not_answered(asked: &[[u8; 32]], answered: &[[u8; 32]]) -> (r: Vec<[u8; 32]>)
    ensures
        keys(r@) == unanswered(keys(asked@), keys(answered@)),
{
    let ghost all = keys(asked@);
    let mut r: Vec<[u8; 32]> = Vec::new();
    let mut i: usize = 0;
    assert(keys(r@) =~= unanswered(all.take(0), keys(answered@)));
    while i < asked.len()
        invariant
            i <= asked@.len(),
            all == keys(asked@),
            keys(r@) == unanswered(all.take(i as int), keys(answered@)),
        decreases asked@.len() - i,
    {
        let ghost before = keys(r@);
        assert(all.take(i + 1).drop_last() =~= all.take(i as int));
        if !has_key_in(answered, &asked[i]) {
            r.push(asked[i]);
            assert(keys(r@) =~= before.push(all[i as int]));
        }
        i = i + 1;
    }
    assert(all.take(i as int) =~= all);
    r
}

fn peers_list(v: &[Addressed]) -> (r: Vec<[u8; 32]>)
    ensures
        keys(r@) == peers_of(v@),
{
    let mut r: Vec<[u8; 32]> = Vec::new();
    let mut i: usize = 0;
    while i < v.len()
        invariant
            i <= v@.len(),
            r@.len() == i,
            forall|j: int| 0 <= j < i ==> r@[j] == v@[j].peer,
        decreases v@.len() - i,
    {
        r.push(v[i].peer);
        i = i + 1;
    }
    assert(keys(r@) =~= peers_of(v@));
    r
}

} // verus!
