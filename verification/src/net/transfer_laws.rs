//! How a transfer of an attachment goes: all of its chunks go out, each waits
//! for an acknowledgement of its own, and the last one of these ends it.

use vstd::prelude::*;

use crate::bytes::be32;
use crate::net::attach_laws::{lemma_numbers_below, numbers_below};
use crate::net::driver::{accepted, packet_step, taken_for};
use crate::net::event::{EventView, Moment, OutView};
use crate::net::ip::{ip_port_text, AddrView};
use crate::net::laws::{lemma_extends_trans, quietly_extends};
use crate::net::messages::{acked, chunk_acked};
use crate::net::node::{noted_seen, AttachSendView, ChunkRefView, Me, NetError, World};
use crate::net::packet::PktType;
use crate::net::route_laws::appears;
use crate::net::traffic_laws::{lemma_noted, lemma_packet};
use crate::proto::law_ack_round_trip;
use crate::table::{law_table, lookup};

verus! {

// ---------- acknowledgements ----------

/// Whether the chunks that count as acknowledged are chunks of the transfer.
pub open spec fn valid_send(s: AttachSendView) -> bool {
    &&& s.acked.finite()
    &&& forall|i: u32| #[trigger] s.acked.contains(i) ==> i < s.total_chunks
}

/// Whether each chunk of a transfer is acknowledged, one now included.
pub open spec fn all_acked(s: AttachSendView, index: u32) -> bool {
    forall|i: u32| i < s.total_chunks ==> i == index || #[trigger] s.acked.contains(i)
}

proof fn lemma_all_acked(s: AttachSendView, index: u32)
    requires
        valid_send(s),
        index < s.total_chunks,
    ensures
        s.acked.insert(index).len() == s.total_chunks <==> all_acked(s, index),
        s.acked.insert(index).len() <= s.total_chunks,
{
    let a = s.acked.insert(index);
    let all = numbers_below(s.total_chunks);
    lemma_numbers_below(s.total_chunks);
    assert(a.subset_of(all));
    vstd::set_lib::lemma_len_subset(a, all);
    if a.len() == all.len() {
        vstd::set_lib::lemma_subset_equality(a, all);
        assert forall|i: u32| i < s.total_chunks implies i == index || #[trigger] s.acked.contains(
            i,
        ) by {
            assert(all.contains(i));
        }
    }
    if all_acked(s, index) {
        assert(a =~= all) by {
            assert forall|i: u32| all.contains(i) implies a.contains(i) by {
                let x = s.acked.contains(i);
            }
        }
    }
}

/// The acknowledgement of a chunk ends the transfer, as acknowledged, exactly
/// when each of its chunks has then been acknowledged. While one is missing,
/// nothing is reported and the transfer goes on, with this chunk counted. The
/// chunk itself no longer waits. Other transfers are left alone.
pub proof fn law_transfer_acknowledged(
    w: World,
    w2: World,
    bytes: Seq<u8>,
    src: AddrView,
    now: Moment,
    r: Result<(), NetError>,
    peer: Me,
    flags: u8,
    number: u32,
    seq: u32,
    c: ChunkRefView,
    s: AttachSendView,
    other: Seq<u8>,
)
    requires
        packet_step(w, w2, bytes, src, now, r),
        taken_for(w.net.me, w.book, bytes, peer, PktType::MsgAck, flags, number, be32(seq)),
        lookup(w.net.chunk_seqs, seq) == Some(c),
        c.recipient == peer.ed_pub,
        lookup(w.net.attach_sends, c.transfer) == Some(s),
        valid_send(s),
        c.index < s.total_chunks,
        other != c.transfer,
    ensures
        r is Ok,
        lookup(w2.net.chunk_seqs, seq) is None,
        lookup(w2.net.retx, (peer.ed_pub, seq)) is None,
        lookup(w2.net.attach_sends, other) == lookup(w.net.attach_sends, other),
        all_acked(s, c.index) ==> lookup(w2.net.attach_sends, c.transfer) is None && appears(
            w2.out,
            w.out.len() as int,
            OutView::Event(EventView::AttachAcked { peer: s.recipient, transfer: c.transfer }),
        ),
        !all_acked(s, c.index) ==> {
            &&& quietly_extends(w.out, w2.out)
            &&& lookup(w2.net.attach_sends, c.transfer) == Some(
                AttachSendView { acked: s.acked.insert(c.index), ..s },
            )
            &&& valid_send(lookup(w2.net.attach_sends, c.transfer)->0)
        },
{
    let p = accepted(w.net.me, w.book, bytes)->Ok_0;
    let ip = ip_port_text(src.ip(), src.port());
    let a = noted_seen(w, p.sender_id, ip, now);
    lemma_noted(w, p.sender_id, ip, now, (p.sender_id, 0));
    let b = lemma_packet(w, w2, bytes, src, now, r, p);
    law_ack_round_trip(seq);
    assert(b == acked(a, p.sender_id, seq));
    assert(b == chunk_acked(a, p.sender_id, seq));
    lemma_all_acked(s, c.index);
    let k = (p.sender_id, seq);
    let k2 = (p.sender_id.push(0), seq);
    assert(k2.0.len() != k.0.len());
    law_table(a.net.retx, k, arbitrary(), k2);
    let next = if seq == 0 {
        1u32
    } else {
        0u32
    };
    law_table(a.net.chunk_seqs, seq, c, next);
    let s2 = AttachSendView { acked: s.acked.insert(c.index), ..s };
    law_table(a.net.attach_sends, c.transfer, s2, other);
    if all_acked(s, c.index) {
        let e = OutView::Event(
            EventView::AttachAcked { peer: s.recipient, transfer: c.transfer },
        );
        assert(b.out[b.out.len() - 1] == e);
        assert(w2.out[b.out.len() - 1] == e);
    } else {
        lemma_extends_trans(w.out, b.out, w2.out);
    }
}

/// An acknowledgement from someone else ends no transfer.
pub proof fn law_acknowledged_by_others(
    w: World,
    w2: World,
    bytes: Seq<u8>,
    src: AddrView,
    now: Moment,
    r: Result<(), NetError>,
    peer: Me,
    flags: u8,
    number: u32,
    seq: u32,
    c: ChunkRefView,
)
    requires
        packet_step(w, w2, bytes, src, now, r),
        taken_for(w.net.me, w.book, bytes, peer, PktType::MsgAck, flags, number, be32(seq)),
        lookup(w.net.chunk_seqs, seq) == Some(c),
        c.recipient != peer.ed_pub,
    ensures
        r is Ok,
        quietly_extends(w.out, w2.out),
        w2.net.attach_sends == w.net.attach_sends,
{
    let p = accepted(w.net.me, w.book, bytes)->Ok_0;
    let ip = ip_port_text(src.ip(), src.port());
    let a = noted_seen(w, p.sender_id, ip, now);
    lemma_noted(w, p.sender_id, ip, now, (p.sender_id, 0));
    let b = lemma_packet(w, w2, bytes, src, now, r, p);
    law_ack_round_trip(seq);
    assert(b == acked(a, p.sender_id, seq));
    lemma_extends_trans(w.out, b.out, w2.out);
}

} // verus!
