//! What becomes of packets that do not arrive, and where packets may go.

use vstd::prelude::*;

use crate::net::announce::announced;
use crate::net::attach::{chunks_cancelled, retx_cancelled};
use crate::net::driver::{all_given_up, belongs, carry_chunk, own_chunk};
use crate::net::event::{EventView, OutView};
use crate::net::ip::{ip_port_text, IpView};
use crate::net::node::{
    failed_of_others, fresh_pending, peer_addrs, resent, retried_failed, sent_to_peer,
    ChunkRefView, World,
};
use crate::net::retransmit::{PendingView, Waiting};
use crate::net::socket::reachable;
use crate::store::friends::has_friend;
use crate::table::{
    has_key, key_index, law_table, lemma_key_index, lemma_without, lookup, put, without,
};

verus! {

// ---------- messages ----------

/// A message that is given up is reported as failed and kept for later.
pub proof fn law_failed_is_kept(w: World, failed: Seq<PendingView>)
    requires
        failed.len() > 0,
        own_chunk(w.net.chunk_seqs, failed.last()) is None,
    ensures
        ({
            let f = failed.last();
            let r = all_given_up(w, failed);
            &&& r.out.len() > 0
            &&& r.out.last() == OutView::Event(
                EventView::MessageFailed { peer: f.recipient, seq: f.seq },
            )
            &&& lookup(r.net.failed_sends, (f.recipient, f.seq)) == Some(f.bytes)
        }),
{
    let f = failed.last();
    let k = (f.recipient, f.seq);
    let other = (f.recipient.push(0), f.seq);
    assert(other.0.len() != k.0.len());
    law_table(all_given_up(w, failed.drop_last()).net.failed_sends, k, f.bytes, other);
}

/// Once an address of someone is known, the messages to it that had failed
/// are sent again and wait for their acknowledgements; no longer do they
/// count as failed.
pub proof fn law_failed_are_resent(w: World, who: Seq<u8>, now: u64, seq: u32)
    requires
        peer_addrs(w.book, who).len() > 0,
        has_key(w.net.failed_sends, (who, seq)),
    ensures
        has_key(retried_failed(w, who, now).net.retx, (who, seq)),
        !has_key(retried_failed(w, who, now).net.failed_sends, (who, seq)),
{
    let failed = w.net.failed_sends;
    let k = (who, seq);
    lemma_key_index(failed, k);
    lemma_resent_waits(w, failed, who, now, key_index(failed, k));
    lemma_others(failed, who);
    lemma_key_index(failed_of_others(failed, who), k);
}

proof fn lemma_resent_waits(
    w: World,
    failed: Seq<((Seq<u8>, u32), Seq<u8>)>,
    who: Seq<u8>,
    now: u64,
    i: int,
)
    requires
        0 <= i < failed.len(),
        failed[i].0.0 == who,
    ensures
        has_key(resent(w, failed, who, now).net.retx, failed[i].0),
    decreases failed.len(),
{
    let t = failed.drop_last();
    let front = resent(w, t, who, now);
    let last = failed.last();
    if i < t.len() {
        lemma_resent_waits(w, t, who, now, i);
        assert(t[i] == failed[i]);
    }
    if last.0.0 == who {
        let k = (who, last.0.1);
        let p = fresh_pending(last.1, who, last.0.1, now);
        lemma_put_has(front.net.retx, k, p, failed[i].0);
    }
}

proof fn lemma_put_has<A, B>(s: Seq<(A, B)>, k: A, v: B, key: A)
    ensures
        has_key(s, key) ==> has_key(put(s, k, v), key),
        has_key(put(s, k, v), k),
{
    lemma_key_index(s, key);
    lemma_key_index(s, k);
    let p = put(s, k, v);
    lemma_key_index(p, key);
    lemma_key_index(p, k);
    if has_key(s, key) {
        assert(p[key_index(s, key)].0 == key);
    }
    if has_key(s, k) {
        assert(p[key_index(s, k)].0 == k);
    } else {
        assert(p[s.len() as int].0 == k);
    }
}

proof fn lemma_others(failed: Seq<((Seq<u8>, u32), Seq<u8>)>, who: Seq<u8>)
    ensures
        forall|i: int|
            0 <= i < failed_of_others(failed, who).len() ==> (#[trigger] failed_of_others(
                failed,
                who,
            )[i]).0.0 != who,
    decreases failed.len(),
{
    if failed.len() > 0 {
        lemma_others(failed.drop_last(), who);
        let front = failed_of_others(failed.drop_last(), who);
        let all = failed_of_others(failed, who);
        assert forall|i: int| 0 <= i < all.len() implies (#[trigger] all[i]).0.0 != who by {
            if i < front.len() {
                assert(all[i] == front[i]);
            }
        }
    }
}

// ---------- attachments ----------

/// How often an output occurs.
pub open spec fn times(out: Seq<OutView>, o: OutView) -> nat
    decreases out.len(),
{
    if out.len() == 0 {
        0
    } else {
        times(out.drop_last(), o) + if out.last() == o {
            1nat
        } else {
            0nat
        }
    }
}

proof fn lemma_times_push(out: Seq<OutView>, e: OutView, o: OutView)
    ensures
        times(out.push(e), o) == times(out, o) + if e == o {
            1nat
        } else {
            0nat
        },
{
    assert(out.push(e).drop_last() =~= out);
}

/// Packets that are given up at once end every transfer of which one of them
/// carries a chunk. However many chunks of it they carry, its failure is
/// reported once, and no chunk of it is reported as a failed message, kept for
/// later, waits for an acknowledgement, or counts as on its way.
pub proof fn law_transfer_ends(
    w: World,
    failed: Seq<PendingView>,
    recipient: Seq<u8>,
    transfer: Seq<u8>,
    seq: u32,
)
    requires
        carry_chunk(w.net.chunk_seqs, failed, recipient, transfer),
        lookup(w.net.chunk_seqs, seq) matches Some(d) && d.recipient == recipient && d.transfer
            == transfer,
    ensures
        ({
            let r = all_given_up(w, failed);
            let ended = OutView::Event(EventView::AttachFailed { peer: recipient, transfer });
            let lost = OutView::Event(EventView::MessageFailed { peer: recipient, seq });
            &&& w.out.is_prefix_of(r.out)
            &&& times(r.out, ended) == times(w.out, ended) + 1
            &&& times(r.out, lost) == times(w.out, lost)
            &&& lookup(r.net.failed_sends, (recipient, seq)) == lookup(
                w.net.failed_sends,
                (recipient, seq),
            )
            &&& !has_key(r.net.retx, (recipient, seq))
            &&& !has_key(r.net.attach_sends, transfer)
            &&& forall|i: int|
                0 <= i < r.net.chunk_seqs.len() ==> !((#[trigger] r.net.chunk_seqs[i]).1.recipient
                    == recipient && r.net.chunk_seqs[i].1.transfer == transfer)
        }),
{
    lemma_transfer_ends(w, failed, recipient, transfer, seq);
}

/// Whether chunks hold no chunk of a transfer.
spec fn none_of(
    chunks: Seq<(u32, ChunkRefView)>,
    recipient: Seq<u8>,
    transfer: Seq<u8>,
) -> bool {
    forall|i: int|
        0 <= i < chunks.len() ==> !((#[trigger] chunks[i]).1.recipient == recipient
            && chunks[i].1.transfer == transfer)
}

proof fn lemma_transfer_ends(
    w: World,
    failed: Seq<PendingView>,
    recipient: Seq<u8>,
    transfer: Seq<u8>,
    seq: u32,
)
    requires
        lookup(w.net.chunk_seqs, seq) matches Some(d) && d.recipient == recipient && d.transfer
            == transfer,
    ensures
        ({
            let r = all_given_up(w, failed);
            let ended = OutView::Event(EventView::AttachFailed { peer: recipient, transfer });
            let lost = OutView::Event(EventView::MessageFailed { peer: recipient, seq });
            let k = (recipient, seq);
            &&& w.out.is_prefix_of(r.out)
            &&& times(r.out, lost) == times(w.out, lost)
            &&& lookup(r.net.failed_sends, k) == lookup(w.net.failed_sends, k)
            &&& if carry_chunk(w.net.chunk_seqs, failed, recipient, transfer) {
                &&& times(r.out, ended) == times(w.out, ended) + 1
                &&& !has_key(r.net.retx, k)
                &&& !has_key(r.net.attach_sends, transfer)
                &&& none_of(r.net.chunk_seqs, recipient, transfer)
            } else {
                &&& times(r.out, ended) == times(w.out, ended)
                &&& r.net.chunk_seqs.contains((seq, lookup(w.net.chunk_seqs, seq)->0))
            }
        }),
    decreases failed.len(),
{
    let chunks = w.net.chunk_seqs;
    let d = lookup(chunks, seq)->0;
    let k = (recipient, seq);
    let ended = OutView::Event(EventView::AttachFailed { peer: recipient, transfer });
    let lost = OutView::Event(EventView::MessageFailed { peer: recipient, seq });
    lemma_key_index(chunks, seq);
    if failed.len() == 0 {
        assert(chunks[key_index(chunks, seq)] == (seq, d));
    } else {
        let t = failed.drop_last();
        let f = failed.last();
        lemma_transfer_ends(w, t, recipient, transfer, seq);
        let x = all_given_up(w, t);
        let r = all_given_up(w, failed);
        lemma_carry_push(chunks, t, f, recipient, transfer);
        assert(t.push(f) =~= failed);
        match own_chunk(chunks, f) {
            Some(c) => {
                let e = OutView::Event(
                    EventView::AttachFailed { peer: c.recipient, transfer: c.transfer },
                );
                if !carry_chunk(chunks, t, c.recipient, c.transfer) {
                    lemma_times_push(x.out, e, ended);
                    lemma_times_push(x.out, e, lost);
                    lemma_cancelled_keeps(x.net.chunk_seqs, c.recipient, c.transfer);
                    lemma_chunks_cancelled(x.net.chunk_seqs, c.recipient, c.transfer);
                    lemma_retx_shrinks(
                        x.net.retx,
                        x.net.chunk_seqs,
                        c.recipient,
                        c.transfer,
                        k,
                    );
                    lemma_without_absent(x.net.attach_sends, c.transfer, transfer);
                    if c.recipient == recipient && c.transfer == transfer {
                        let i = x.net.chunk_seqs.index_of((seq, d));
                        assert(x.net.chunk_seqs[i] == (seq, d));
                        lemma_retx_cancelled(
                            x.net.retx,
                            x.net.chunk_seqs,
                            recipient,
                            transfer,
                            i,
                        );
                        lemma_without(x.net.attach_sends, transfer);
                        lemma_key_index(without(x.net.attach_sends, transfer), transfer);
                    } else if carry_chunk(chunks, t, recipient, transfer) {
                        let kept = chunks_cancelled(x.net.chunk_seqs, c.recipient, c.transfer);
                        assert forall|i: int| 0 <= i < kept.len() implies !((
                        #[trigger] kept[i]).1.recipient == recipient && kept[i].1.transfer
                            == transfer) by {
                            let j = x.net.chunk_seqs.index_of(kept[i]);
                            assert(x.net.chunk_seqs[j] == kept[i]);
                        }
                    }
                }
            },
            None => {
                let e = OutView::Event(
                    EventView::MessageFailed { peer: f.recipient, seq: f.seq },
                );
                assert((f.recipient, f.seq) != k);
                lemma_times_push(x.out, e, ended);
                lemma_times_push(x.out, e, lost);
                law_table(x.net.failed_sends, (f.recipient, f.seq), f.bytes, k);
            },
        }
    }
}

proof fn lemma_carry_push(
    chunks: Seq<(u32, ChunkRefView)>,
    t: Seq<PendingView>,
    f: PendingView,
    recipient: Seq<u8>,
    transfer: Seq<u8>,
)
    ensures
        carry_chunk(chunks, t.push(f), recipient, transfer) <==> carry_chunk(
            chunks,
            t,
            recipient,
            transfer,
        ) || belongs(own_chunk(chunks, f), recipient, transfer),
{
    let all = t.push(f);
    if carry_chunk(chunks, all, recipient, transfer) {
        let i = choose|i: int|
            0 <= i < all.len() && belongs(#[trigger] own_chunk(chunks, all[i]), recipient, transfer);
        if i < t.len() {
            assert(own_chunk(chunks, t[i]) is Some);
        }
    }
    if carry_chunk(chunks, t, recipient, transfer) {
        let i = choose|i: int|
            0 <= i < t.len() && belongs(#[trigger] own_chunk(chunks, t[i]), recipient, transfer);
        assert(own_chunk(chunks, all[i]) is Some);
    }
    if own_chunk(chunks, f) is Some {
        assert(own_chunk(chunks, all[t.len() as int]) is Some);
    }
}

proof fn lemma_cancelled_keeps(
    chunks: Seq<(u32, ChunkRefView)>,
    recipient: Seq<u8>,
    transfer: Seq<u8>,
)
    ensures
        forall|i: int|
            0 <= i < chunks_cancelled(chunks, recipient, transfer).len() ==> chunks.contains(
                #[trigger] chunks_cancelled(chunks, recipient, transfer)[i],
            ),
        forall|e: (u32, ChunkRefView)| #[trigger]
            chunks.contains(e) && !(e.1.recipient == recipient && e.1.transfer == transfer)
                ==> chunks_cancelled(chunks, recipient, transfer).contains(e),
    decreases chunks.len(),
{
    if chunks.len() > 0 {
        let t = chunks.drop_last();
        lemma_cancelled_keeps(t, recipient, transfer);
        let front = chunks_cancelled(t, recipient, transfer);
        let all = chunks_cancelled(chunks, recipient, transfer);
        assert forall|i: int| 0 <= i < all.len() implies chunks.contains(#[trigger] all[i]) by {
            if i < front.len() {
                assert(all[i] == front[i]);
                let j = t.index_of(all[i]);
                assert(chunks[j] == all[i]);
            } else {
                assert(chunks[chunks.len() - 1] == all[i]);
            }
        }
        assert forall|e: (u32, ChunkRefView)| #[trigger]
            chunks.contains(e) && !(e.1.recipient == recipient && e.1.transfer
                == transfer) implies all.contains(e) by {
            let j = chunks.index_of(e);
            if j < t.len() {
                assert(t[j] == e);
                assert(t.contains(e));
                let m = front.index_of(e);
                assert(all[m] == e);
            } else {
                assert(all[all.len() - 1] == e);
            }
        }
    }
}

proof fn lemma_without_absent<A, B>(s: Seq<(A, B)>, gone: A, k: A)
    ensures
        !has_key(s, k) ==> !has_key(without(s, gone), k),
{
    lemma_without(s, gone);
    let r = without(s, gone);
    lemma_key_index(r, k);
    lemma_key_index(s, k);
    if has_key(r, k) {
        let i = key_index(r, k);
        let j = s.index_of(r[i]);
        assert(s[j] == r[i]);
    }
}

proof fn lemma_retx_shrinks(
    retx: Waiting,
    chunks: Seq<(u32, ChunkRefView)>,
    recipient: Seq<u8>,
    transfer: Seq<u8>,
    k: (Seq<u8>, u32),
)
    ensures
        !has_key(retx, k) ==> !has_key(retx_cancelled(retx, chunks, recipient, transfer), k),
    decreases chunks.len(),
{
    if chunks.len() > 0 {
        let t = chunks.drop_last();
        lemma_retx_shrinks(retx, t, recipient, transfer, k);
        let front = retx_cancelled(retx, t, recipient, transfer);
        lemma_without_absent(front, (recipient, chunks.last().0), k);
    }
}

proof fn lemma_chunks_cancelled(
    chunks: Seq<(u32, ChunkRefView)>,
    recipient: Seq<u8>,
    transfer: Seq<u8>,
)
    ensures
        forall|i: int|
            0 <= i < chunks_cancelled(chunks, recipient, transfer).len() ==> !((
            #[trigger] chunks_cancelled(chunks, recipient, transfer)[i]).1.recipient == recipient
                && chunks_cancelled(chunks, recipient, transfer)[i].1.transfer == transfer),
    decreases chunks.len(),
{
    if chunks.len() > 0 {
        lemma_chunks_cancelled(chunks.drop_last(), recipient, transfer);
        let front = chunks_cancelled(chunks.drop_last(), recipient, transfer);
        let all = chunks_cancelled(chunks, recipient, transfer);
        assert forall|i: int| 0 <= i < all.len() implies !((#[trigger] all[i]).1.recipient
            == recipient && all[i].1.transfer == transfer) by {
            if i < front.len() {
                assert(all[i] == front[i]);
            }
        }
    }
}

proof fn lemma_retx_cancelled(
    retx: Waiting,
    chunks: Seq<(u32, ChunkRefView)>,
    recipient: Seq<u8>,
    transfer: Seq<u8>,
    i: int,
)
    requires
        0 <= i < chunks.len(),
        chunks[i].1.recipient == recipient,
        chunks[i].1.transfer == transfer,
    ensures
        !has_key(
            retx_cancelled(retx, chunks, recipient, transfer),
            (recipient, chunks[i].0),
        ),
    decreases chunks.len(),
{
    let t = chunks.drop_last();
    let front = retx_cancelled(retx, t, recipient, transfer);
    let k = (recipient, chunks[i].0);
    let last = chunks.last();
    let gone = (recipient, last.0);
    if i < t.len() {
        lemma_retx_cancelled(retx, t, recipient, transfer, i);
        assert(t[i] == chunks[i]);
    }
    lemma_without(front, gone);
    lemma_key_index(without(front, gone), gone);
    if gone != k {
        lemma_key_index(front, k);
        law_table(front, gone, arbitrary(), k);
    }
}

// ---------- where packets go ----------

/// A packet to someone who is no friend goes nowhere.
pub proof fn law_only_friends_are_sent_to(w: World, id: Seq<u8>, bytes: Seq<u8>)
    requires
        sent_to_peer(w, id, bytes).out != w.out,
    ensures
        has_friend(w.book, id),
{
    if !has_friend(w.book, id) {
        assert(sent_to_peer(w, id, bytes).out =~= w.out);
    }
}

/// What is announced without a stable address is reachable, and carries our
/// port.
pub proof fn law_announced_are_reachable(
    port: u16,
    ip: Option<IpView>,
    ipv6: Option<IpView>,
    i: int,
)
    requires
        0 <= i < announced(None, port, ip, ipv6).len(),
    ensures
        exists|a: IpView|
            reachable(a) && announced(None, port, ip, ipv6)[i] == #[trigger] ip_port_text(a, port),
{
}

} // verus!
