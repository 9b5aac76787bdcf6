//! Where packets to a friend go.

use vstd::prelude::*;

use crate::net::event::OutView;
use crate::net::ip::AddrView;
use crate::net::node::{family_addrs, parsed_list, peer_addrs, route, sends, sent_to_peer, World};
use crate::net::socket::{law_mapped_round_trip, parsed_addr, recv_form, send_form};
use crate::store::friends::{friend_of, FriendView};

verus! {

// ---------- outputs ----------

/// Whether `b` begins with `a`.
pub open spec fn continues(a: Seq<OutView>, b: Seq<OutView>) -> bool {
    &&& a.len() <= b.len()
    &&& forall|i: int| 0 <= i < a.len() ==> #[trigger] b[i] == a[i]
}

/// Whether an output stands at a place or behind it.
pub open spec fn appears(out: Seq<OutView>, from: int, o: OutView) -> bool {
    exists|k: int| from <= k < out.len() && #[trigger] out[k] == o
}

/// The form in which an address is handed to the socket.
pub open spec fn wire_form(use_v6: bool, a: AddrView) -> AddrView {
    if use_v6 {
        send_form(a)
    } else {
        a
    }
}

/// Whether a datagram goes out to every address that is recorded for a friend,
/// of either family; `w` is the world before. An address without a port has
/// port 1212.
pub open spec fn reaches(w: World, out: Seq<OutView>, id: Seq<u8>, bytes: Seq<u8>) -> bool {
    match friend_of(w.book, id) {
        Some(f) => forall|j: int|
            0 <= j < f.ips.len() ==> (parsed_addr(#[trigger] f.ips[j], 1212) matches Some(a)
                ==> appears(
                out,
                w.out.len() as int,
                OutView::Send { to: wire_form(w.net.use_v6, a), bytes },
            )),
        None => true,
    }
}

/// Whether an address is recorded for a friend.
pub open spec fn recorded(book: Seq<FriendView>, id: Seq<u8>, a: AddrView) -> bool {
    friend_of(book, id) matches Some(f) && exists|j: int|
        0 <= j < f.ips.len() && parsed_addr(#[trigger] f.ips[j], 1212) == Some(a)
}

pub proof fn lemma_continues_trans(a: Seq<OutView>, b: Seq<OutView>, c: Seq<OutView>)
    requires
        continues(a, b),
        continues(b, c),
    ensures
        continues(a, c),
{
    assert forall|i: int| 0 <= i < a.len() implies #[trigger] c[i] == a[i] by {
        assert(b[i] == a[i]);
    }
}

/// What went out stays out.
pub proof fn lemma_appears_later(a: Seq<OutView>, b: Seq<OutView>, from: int, o: OutView)
    requires
        continues(a, b),
        0 <= from,
        appears(a, from, o),
    ensures
        appears(b, from, o),
{
    let k = choose|k: int| from <= k < a.len() && #[trigger] a[k] == o;
    assert(b[k] == o);
}

pub proof fn lemma_appears_earlier(out: Seq<OutView>, from: int, to: int, o: OutView)
    requires
        appears(out, to, o),
        from <= to,
    ensures
        appears(out, from, o),
{
    let k = choose|k: int| to <= k < out.len() && #[trigger] out[k] == o;
    assert(out[k] == o);
}

/// A datagram that reached a friend in a later world with the same friends
/// reached it in an earlier one.
pub proof fn lemma_reaches_later(
    w: World,
    a: World,
    out: Seq<OutView>,
    out2: Seq<OutView>,
    id: Seq<u8>,
    bytes: Seq<u8>,
)
    requires
        reaches(a, out, id, bytes),
        friend_of(a.book, id) == friend_of(w.book, id),
        a.net.use_v6 == w.net.use_v6,
        w.out.len() <= a.out.len(),
        continues(out, out2),
    ensures
        reaches(w, out2, id, bytes),
{
    match friend_of(w.book, id) {
        Some(f) => {
            assert forall|j: int| 0 <= j < f.ips.len() implies (parsed_addr(
                #[trigger] f.ips[j],
                1212,
            ) matches Some(x) ==> appears(
                out2,
                w.out.len() as int,
                OutView::Send { to: wire_form(w.net.use_v6, x), bytes },
            )) by {
                match parsed_addr(f.ips[j], 1212) {
                    Some(x) => {
                        let o = OutView::Send { to: wire_form(w.net.use_v6, x), bytes };
                        lemma_appears_earlier(out, w.out.len() as int, a.out.len() as int, o);
                        lemma_appears_later(out, out2, w.out.len() as int, o);
                    },
                    None => {},
                }
            }
        },
        None => {},
    }
}

// ---------- addresses ----------

proof fn lemma_parsed_list(ips: Seq<Seq<char>>)
    ensures
        forall|j: int|
            0 <= j < ips.len() ==> (parsed_addr(#[trigger] ips[j], 1212) matches Some(a)
                ==> parsed_list(ips).contains(a)),
        forall|k: int|
            0 <= k < parsed_list(ips).len() ==> exists|j: int|
                0 <= j < ips.len() && parsed_addr(#[trigger] ips[j], 1212) == Some(
                    #[trigger] parsed_list(ips)[k],
                ),
    decreases ips.len(),
{
    if ips.len() > 0 {
        let t = ips.drop_last();
        lemma_parsed_list(t);
        let l = parsed_list(ips);
        let m = parsed_list(t);
        assert forall|j: int| 0 <= j < ips.len() implies (parsed_addr(
            #[trigger] ips[j],
            1212,
        ) matches Some(a) ==> l.contains(a)) by {
            match parsed_addr(ips[j], 1212) {
                Some(a) => {
                    if j < t.len() {
                        assert(t[j] == ips[j]);
                        assert(m.contains(a));
                        let k = m.index_of(a);
                        assert(l[k] == a);
                    } else {
                        assert(l[l.len() - 1] == a);
                    }
                },
                None => {},
            }
        }
        assert forall|k: int| 0 <= k < l.len() implies exists|j: int|
            0 <= j < ips.len() && parsed_addr(#[trigger] ips[j], 1212) == Some(
                #[trigger] l[k],
            ) by {
            if k < m.len() {
                assert(l[k] == m[k]);
                let j = choose|j: int|
                    0 <= j < t.len() && parsed_addr(#[trigger] t[j], 1212) == Some(m[k]);
                assert(ips[j] == t[j]);
            } else {
                assert(parsed_addr(ips[ips.len() - 1], 1212) == Some(l[k]));
            }
        }
    }
}

proof fn lemma_family_addrs(v: Seq<AddrView>, v6: bool)
    ensures
        forall|k: int|
            0 <= k < v.len() && (v[k] is V6) == v6 ==> family_addrs(v, v6).contains(
                #[trigger] v[k],
            ),
        forall|k: int|
            0 <= k < family_addrs(v, v6).len() ==> (#[trigger] family_addrs(v, v6)[k] is V6) == v6
                && v.contains(family_addrs(v, v6)[k]),
    decreases v.len(),
{
    if v.len() > 0 {
        let t = v.drop_last();
        lemma_family_addrs(t, v6);
        let l = family_addrs(v, v6);
        let m = family_addrs(t, v6);
        assert forall|k: int| 0 <= k < v.len() && (v[k] is V6) == v6 implies l.contains(
            #[trigger] v[k],
        ) by {
            if k < t.len() {
                assert(t[k] == v[k]);
                assert(m.contains(t[k]));
                let i = m.index_of(v[k]);
                assert(l[i] == v[k]);
            } else {
                assert(l[l.len() - 1] == v[k]);
            }
        }
        assert forall|k: int| 0 <= k < l.len() implies (#[trigger] l[k] is V6) == v6
            && v.contains(l[k]) by {
            if k < m.len() {
                assert(l[k] == m[k]);
                let i = t.index_of(m[k]);
                assert(v[i] == l[k]);
            } else {
                assert(v[v.len() - 1] == l[k]);
            }
        }
    }
}

/// A packet to a friend goes to every recorded text that is an address, of
/// either family, and nowhere else; all IPv6 addresses come before all others.
/// Someone who is no friend has no address.
pub proof fn law_peer_addrs(book: Seq<FriendView>, id: Seq<u8>)
    ensures
        forall|a: AddrView| #[trigger] peer_addrs(book, id).contains(a) <==> recorded(book, id, a),
        forall|i: int, j: int|
            0 <= i < j < peer_addrs(book, id).len() && #[trigger] peer_addrs(book, id)[j] is V6
                ==> #[trigger] peer_addrs(book, id)[i] is V6,
        friend_of(book, id) is None ==> peer_addrs(book, id).len() == 0,
{
    match friend_of(book, id) {
        Some(f) => {
            let all = parsed_list(f.ips);
            let six = family_addrs(all, true);
            let four = family_addrs(all, false);
            let r = peer_addrs(book, id);
            lemma_parsed_list(f.ips);
            lemma_family_addrs(all, true);
            lemma_family_addrs(all, false);
            assert(r == six + four);
            assert forall|a: AddrView| recorded(book, id, a) implies #[trigger] r.contains(a) by {
                let j = choose|j: int|
                    0 <= j < f.ips.len() && parsed_addr(#[trigger] f.ips[j], 1212) == Some(a);
                assert(all.contains(a));
                let k = all.index_of(a);
                assert(all[k] == a);
                if a is V6 {
                    let i = six.index_of(a);
                    assert(r[i] == a);
                } else {
                    let i = four.index_of(a);
                    assert(r[six.len() + i] == a);
                }
            }
            assert forall|a: AddrView| #[trigger] r.contains(a) implies recorded(book, id, a) by {
                let i = r.index_of(a);
                if i < six.len() {
                    assert(six[i] == a);
                } else {
                    assert(four[i - six.len()] == a);
                }
                assert(all.contains(a));
                let k = all.index_of(a);
                assert(all[k] == a);
            }
            assert forall|i: int, j: int|
                0 <= i < j < r.len() && #[trigger] r[j] is V6 implies #[trigger] r[i] is V6 by {
                if j >= six.len() {
                    assert(r[j] == four[j - six.len()]);
                }
                assert(r[i] == six[i]);
            }
        },
        None => {
            assert forall|a: AddrView| !(#[trigger] peer_addrs(book, id).contains(a)) by {}
        },
    }
}

/// A datagram to a friend goes out once to each of its addresses: it reaches
/// all of them, each new output is that datagram to one of them, and nothing
/// else changes.
pub proof fn law_sent_to_friend(w: World, id: Seq<u8>, bytes: Seq<u8>)
    ensures
        ({
            let r = sent_to_peer(w, id, bytes);
            &&& reaches(w, r.out, id, bytes)
            &&& continues(w.out, r.out)
            &&& r == (World { out: r.out, ..w })
            &&& r.out.len() == w.out.len() + peer_addrs(w.book, id).len()
            &&& forall|k: int|
                w.out.len() <= k < r.out.len() ==> exists|a: AddrView|
                    recorded(w.book, id, a) && #[trigger] r.out[k] == (OutView::Send {
                        to: #[trigger] wire_form(w.net.use_v6, a),
                        bytes,
                    })
        }),
{
    let addrs = peer_addrs(w.book, id);
    let r = sent_to_peer(w, id, bytes);
    let n = w.out.len() as int;
    law_peer_addrs(w.book, id);
    assert forall|k: int| 0 <= k < addrs.len() implies #[trigger] r.out[n + k] == (OutView::Send {
        to: wire_form(w.net.use_v6, addrs[k]),
        bytes,
    }) by {
        assert(sends(w.net.use_v6, addrs, bytes)[k] == OutView::Send {
            to: route(w.net.use_v6, addrs[k]),
            bytes,
        });
    }
    match friend_of(w.book, id) {
        Some(f) => {
            assert forall|j: int| 0 <= j < f.ips.len() implies (parsed_addr(
                #[trigger] f.ips[j],
                1212,
            ) matches Some(a) ==> appears(
                r.out,
                n,
                OutView::Send { to: wire_form(w.net.use_v6, a), bytes },
            )) by {
                match parsed_addr(f.ips[j], 1212) {
                    Some(a) => {
                        assert(recorded(w.book, id, a));
                        assert(addrs.contains(a));
                        let k = addrs.index_of(a);
                        assert(r.out[n + k] == OutView::Send {
                            to: wire_form(w.net.use_v6, a),
                            bytes,
                        });
                    },
                    None => {},
                }
            }
        },
        None => {},
    }
    assert forall|k: int| n <= k < r.out.len() implies exists|a: AddrView|
        recorded(w.book, id, a) && #[trigger] r.out[k] == (OutView::Send {
            to: #[trigger] wire_form(w.net.use_v6, a),
            bytes,
        }) by {
        let a = addrs[k - n];
        assert(addrs.contains(a));
        assert(r.out[n + (k - n)] == OutView::Send { to: wire_form(w.net.use_v6, a), bytes });
    }
}

/// From a dual-stack socket every datagram goes to an IPv6 address, and the
/// receiver of an answer sees the address that was meant.
pub proof fn law_wire_form(a: AddrView)
    requires
        a matches AddrView::V4 { octets, .. } ==> octets.len() == 4,
    ensures
        send_form(a) is V6,
        a is V6 ==> send_form(a) == a,
        a is V4 ==> recv_form(send_form(a)) == a,
        a is V4 ==> recv_form(a) == a,
{
    match a {
        AddrView::V4 { octets, port } => {
            law_mapped_round_trip(octets, port);
        },
        AddrView::V6 { .. } => {},
    }
}

} // verus!
