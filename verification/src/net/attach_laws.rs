//! An attachment comes out as it was cut up, in whatever order its chunks
//! arrive.

use vstd::prelude::*;

use crate::net::attach::{
    assembled, chunk_at, chunk_count, chunk_data, new_recv, recv_after, recv_with, MAX_ATTACH_TOTAL,
};
use crate::net::event::EventView;
use crate::net::node::{emitted, AttachRecvView, NetState, World};
use crate::proto::ChunkView;
use crate::table::{
    has_key, law_table, lemma_key_index, lemma_key_index_is, lemma_without, lookup, put, without,
};

verus! {

/// The world after chunks of an attachment came in, in the given order and at
/// the given times.
pub open spec fn chunks_taken(
    w: World,
    peer: Seq<u8>,
    ts: u64,
    transfer: Seq<u8>,
    kind: u8,
    name: Seq<char>,
    data: Seq<u8>,
    order: Seq<(u32, u64)>,
) -> World
    decreases order.len(),
{
    if order.len() == 0 {
        w
    } else {
        assembled(
            chunks_taken(w, peer, ts, transfer, kind, name, data, order.drop_last()),
            peer,
            ts,
            chunk_at(transfer, kind, name, data, order.last().0 as int),
            order.last().1,
        )
    }
}

/// Whether a chunk is among those that came in.
pub open spec fn came_in(order: Seq<(u32, u64)>, i: u32) -> bool {
    exists|k: int| 0 <= k < order.len() && (#[trigger] order[k]).0 == i
}

/// All chunk numbers below a bound.
pub open spec fn numbers_below(n: u32) -> Set<u32> {
    Set::new(|i: u32| i < n)
}

pub proof fn lemma_numbers_below(n: u32)
    ensures
        numbers_below(n).finite(),
        numbers_below(n).len() == n,
    decreases n,
{
    if n == 0 {
        assert(numbers_below(n) =~= Set::<u32>::empty());
    } else {
        let m = (n - 1) as u32;
        lemma_numbers_below(m);
        assert(numbers_below(n) =~= numbers_below(m).insert(m));
    }
}

/// What is kept while chunks are missing: the data where chunks came in.
spec fn partly(
    r: AttachRecvView,
    kind: u8,
    name: Seq<char>,
    data: Seq<u8>,
    order: Seq<(u32, u64)>,
) -> bool {
    &&& r.kind == kind
    &&& r.name == name
    &&& r.total_chunks == chunk_count(data.len())
    &&& r.data.len() == data.len()
    &&& r.got.finite()
    &&& forall|i: u32| r.got.contains(i) <==> came_in(order, i)
    &&& forall|j: int|
        0 <= j < data.len() && r.got.contains((j / 2400) as u32) ==> #[trigger] r.data[j] == data[j]
}

proof fn lemma_count(len: nat, j: int)
    requires
        len <= MAX_ATTACH_TOTAL,
    ensures
        0 <= j < len ==> 0 <= j / 2400 < chunk_count(len),
        chunk_count(len) <= 0x2_0000,
{
}

/// One more chunk.
proof fn lemma_chunk_written(
    r: AttachRecvView,
    kind: u8,
    name: Seq<char>,
    data: Seq<u8>,
    order: Seq<(u32, u64)>,
    transfer: Seq<u8>,
    i: u32,
    now: u64,
)
    requires
        data.len() <= MAX_ATTACH_TOTAL,
        partly(r, kind, name, data, order),
        i < chunk_count(data.len()),
    ensures
        partly(
            recv_with(r, chunk_at(transfer, kind, name, data, i as int), now),
            kind,
            name,
            data,
            order.push((i, now)),
        ),
{
    let c = chunk_at(transfer, kind, name, data, i as int);
    let r2 = recv_with(r, c, now);
    let order2 = order.push((i, now));
    lemma_count(data.len(), 0);
    assert forall|k: u32| r2.got.contains(k) <==> came_in(order2, k) by {
        if came_in(order, k) {
            let x = choose|x: int| 0 <= x < order.len() && (#[trigger] order[x]).0 == k;
            assert(order2[x].0 == k);
        }
        assert(order2[order.len() as int].0 == i);
        if came_in(order2, k) && k != i {
            let x = choose|x: int| 0 <= x < order2.len() && (#[trigger] order2[x]).0 == k;
            assert(order[x].0 == k);
        }
    }
    assert(c.data == chunk_data(data, i as int));
    assert forall|j: int|
        0 <= j < data.len() && r2.got.contains(
            (j / 2400) as u32,
        ) implies #[trigger] r2.data[j] == data[j] by {
        lemma_count(data.len(), j);
        if !r.got.contains(i) && j / 2400 != i {
            assert(r.data[j] == data[j]);
        }
    }
}

/// While chunks are missing nothing is handed on.
proof fn lemma_partly(
    w: World,
    peer: Seq<u8>,
    ts: u64,
    transfer: Seq<u8>,
    kind: u8,
    name: Seq<char>,
    data: Seq<u8>,
    order: Seq<(u32, u64)>,
    missing: u32,
)
    requires
        data.len() <= MAX_ATTACH_TOTAL,
        !has_key(w.net.attach_recvs, transfer),
        forall|k: int|
            0 <= k < order.len() ==> (#[trigger] order[k]).0 < chunk_count(data.len()),
        missing < chunk_count(data.len()),
        !came_in(order, missing),
    ensures
        ({
            let x = chunks_taken(w, peer, ts, transfer, kind, name, data, order);
            &&& x == (World {
                net: NetState { attach_recvs: x.net.attach_recvs, ..w.net },
                ..w
            })
            &&& without(x.net.attach_recvs, transfer) == w.net.attach_recvs
            &&& if order.len() == 0 {
                x == w
            } else {
                lookup(x.net.attach_recvs, transfer) matches Some(r) && partly(
                    r,
                    kind,
                    name,
                    data,
                    order,
                )
            }
        }),
    decreases order.len(),
{
    lemma_without(w.net.attach_recvs, transfer);
    if order.len() > 0 {
        let rest = order.drop_last();
        let (i, now) = order.last();
        assert(order =~= rest.push((i, now)));
        assert forall|k: int| 0 <= k < rest.len() implies (#[trigger] rest[k]).0 < chunk_count(
            data.len(),
        ) by {
            assert(order[k] == rest[k]);
        }
        if came_in(rest, missing) {
            let k = choose|k: int| 0 <= k < rest.len() && (#[trigger] rest[k]).0 == missing;
            assert(order[k].0 == missing);
        }
        assert(order[order.len() - 1].0 == i);
        lemma_partly(w, peer, ts, transfer, kind, name, data, rest, missing);
        let c = chunk_at(transfer, kind, name, data, i as int);
        let x = chunks_taken(w, peer, ts, transfer, kind, name, data, rest);
        let fresh = new_recv(c, now);
        let old_r = match lookup(x.net.attach_recvs, transfer) {
            Some(r) => r,
            None => fresh,
        };
        if rest.len() == 0 {
            assert(lookup(x.net.attach_recvs, transfer) is None);
        }
        assert(partly(old_r, kind, name, data, rest));
        lemma_chunk_written(old_r, kind, name, data, rest, transfer, i, now);
        let r = recv_with(old_r, c, now);
        let n = chunk_count(data.len());
        lemma_numbers_below(n);
        lemma_count(data.len(), 0);
        assert forall|k: u32| r.got.contains(k) implies numbers_below(n).remove(missing).contains(
            k,
        ) by {
            assert(came_in(order, k));
        }
        vstd::set_lib::lemma_len_subset(r.got, numbers_below(n).remove(missing));
        assert(r.got.len() != r.total_chunks);
        let base = w.net.attach_recvs;
        let y = chunks_taken(w, peer, ts, transfer, kind, name, data, order);
        assert(y.net.attach_recvs == put(base, transfer, r));
        lemma_key_index(base, transfer);
        assert(y.net.attach_recvs =~= base.push((transfer, r)));
        lemma_key_index_is(y.net.attach_recvs, transfer, base.len() as int);
        assert(y.net.attach_recvs.drop_last() =~= base);
        assert(without(y.net.attach_recvs, transfer) =~= base);
    }
}

/// Once every chunk of an attachment has come in, in any order and with any
/// number of repeats, it is handed on exactly once, as it was, and nothing of
/// it is kept.
pub proof fn law_attachment_reassembled(
    w: World,
    peer: Seq<u8>,
    ts: u64,
    transfer: Seq<u8>,
    kind: u8,
    name: Seq<char>,
    data: Seq<u8>,
    order: Seq<(u32, u64)>,
)
    requires
        data.len() <= MAX_ATTACH_TOTAL,
        !has_key(w.net.attach_recvs, transfer),
        order.len() > 0,
        forall|k: int|
            0 <= k < order.len() ==> (#[trigger] order[k]).0 < chunk_count(data.len()),
        forall|i: u32| i < chunk_count(data.len()) ==> #[trigger] came_in(order, i),
        !came_in(order.drop_last(), order.last().0),
    ensures
        chunks_taken(w, peer, ts, transfer, kind, name, data, order) == emitted(
            w,
            EventView::AttachReceived { peer, kind, name, data, ts },
        ),
{
    let rest = order.drop_last();
    let (i, now) = order.last();
    assert(order =~= rest.push((i, now)));
    assert forall|k: int| 0 <= k < rest.len() implies (#[trigger] rest[k]).0 < chunk_count(
        data.len(),
    ) by {
        assert(order[k] == rest[k]);
    }
    assert(order[order.len() - 1].0 == i);
    lemma_partly(w, peer, ts, transfer, kind, name, data, rest, i);
    lemma_without(w.net.attach_recvs, transfer);
    let c = chunk_at(transfer, kind, name, data, i as int);
    let x = chunks_taken(w, peer, ts, transfer, kind, name, data, rest);
    let fresh = new_recv(c, now);
    let old_r = match lookup(x.net.attach_recvs, transfer) {
        Some(r) => r,
        None => fresh,
    };
    assert(partly(old_r, kind, name, data, rest));
    lemma_chunk_written(old_r, kind, name, data, rest, transfer, i, now);
    let r = recv_with(old_r, c, now);
    let n = chunk_count(data.len());
    lemma_numbers_below(n);
    assert(r.got =~= numbers_below(n)) by {
        assert forall|k: u32| r.got.contains(k) <==> numbers_below(n).contains(k) by {
            assert(r.got.contains(k) <==> came_in(order, k));
            if came_in(order, k) {
                let x = choose|x: int| 0 <= x < order.len() && (#[trigger] order[x]).0 == k;
                assert(order[x].0 < n);
            }
        }
    }
    assert(r.data =~= data) by {
        assert forall|j: int| 0 <= j < data.len() implies #[trigger] r.data[j] == data[j] by {
            lemma_count(data.len(), j);
            assert(numbers_below(n).contains((j / 2400) as u32));
        }
    }
    assert(chunks_taken(w, peer, ts, transfer, kind, name, data, order) =~= emitted(
        w,
        EventView::AttachReceived { peer, kind, name, data, ts },
    ));
}

/// A chunk that leaves an attachment incomplete is noted there, and the
/// attachment has been heard of now, even where the chunk had come in before;
/// such a chunk changes nothing else. What the first chunk said of the
/// attachment stays. Other attachments are left alone.
pub proof fn law_chunk_is_noted(
    w: World,
    peer: Seq<u8>,
    ts: u64,
    c: ChunkView,
    now: u64,
    other: Seq<u8>,
)
    requires
        c.total_size <= 0x1000_0000,
        other != c.transfer,
    ensures
        ({
            let a = assembled(w, peer, ts, c, now);
            &&& a.book == w.book
            &&& a.net == (NetState { attach_recvs: a.net.attach_recvs, ..w.net })
            &&& lookup(a.net.attach_recvs, other) == lookup(w.net.attach_recvs, other)
            &&& match lookup(a.net.attach_recvs, c.transfer) {
                None => a.out.len() == w.out.len() + 1 && a.out.drop_last() == w.out,
                Some(r) => {
                    &&& a.out == w.out
                    &&& r.updated == now
                    &&& r.got.contains(c.index)
                    &&& r.got.len() != r.total_chunks
                    &&& match lookup(w.net.attach_recvs, c.transfer) {
                        Some(o) => {
                            &&& r.kind == o.kind && r.name == o.name
                            &&& r.total_size == o.total_size && r.total_chunks == o.total_chunks
                            &&& o.got.contains(c.index) ==> r == (AttachRecvView {
                                updated: now,
                                ..o
                            })
                            &&& forall|i: u32|
                                i != c.index ==> (#[trigger] r.got.contains(i) <==> o.got.contains(
                                    i,
                                ))
                        },
                        None => {
                            &&& r.kind == c.kind && r.name == c.name
                            &&& r.total_size == c.total_size && r.total_chunks == c.total
                            &&& r.data.len() == c.total_size
                            &&& forall|i: u32| #[trigger] r.got.contains(i) <==> i == c.index
                        },
                    }
                },
            }
        }),
{
    let recvs = w.net.attach_recvs;
    let r = recv_after(recvs, c, now);
    law_table(recvs, c.transfer, r, other);
    law_table(without(recvs, c.transfer), c.transfer, r, other);
    let a = assembled(w, peer, ts, c, now);
    if r.got.len() == r.total_chunks {
        assert(a.out.drop_last() =~= w.out);
    }
}

} // verus!
