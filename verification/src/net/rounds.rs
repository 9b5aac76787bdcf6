//! Sending one plaintext to many peers, each sealed for its recipient.

use vstd::prelude::*;

use crate::bytes::same_array;
use crate::crypto::cipher;
use crate::crypto::id;
use crate::net::event::Output;
use crate::net::node::{can_seal, is_sealed_packet, sent_to_peer, world, Me, Network, World};
use crate::net::packet::PktType;
use crate::proto::addressing::keys;
use crate::store::friends::{FriendStore, FriendView};

verus! {

/// A sealed packet and whom it is for.
pub struct Addressed {
    pub peer: [u8; 32],
    pub bytes: Vec<u8>,
}

/// The recipients of a list of packets.
pub open spec fn peers_of(v: Seq<Addressed>) -> Seq<Seq<u8>> {
    Seq::new(v.len(), |i: int| v[i].peer@)
}

/// The bytes of a list of packets.
pub open spec fn bytes_of(v: Seq<Addressed>) -> Seq<Seq<u8>> {
    Seq::new(v.len(), |i: int| v[i].bytes@)
}

/// The peers for whom a plaintext of some length can be sealed.
pub open spec fn sealable(peers: Seq<Seq<u8>>, len: nat) -> Seq<Seq<u8>>
    decreases peers.len(),
{
    if peers.len() == 0 {
        Seq::empty()
    } else {
        let front = sealable(peers.drop_last(), len);
        if can_seal(peers.last(), len) {
            front.push(peers.last())
        } else {
            front
        }
    }
}

/// Whether packets carry a plaintext to the peers, one each.
pub open spec fn are_sealed_for(
    me: Me,
    ptype: PktType,
    flags: u8,
    peers: Seq<Seq<u8>>,
    inner: Seq<u8>,
    packets: Seq<Seq<u8>>,
) -> bool {
    &&& packets.len() == peers.len()
    &&& forall|i: int|
        0 <= i < packets.len() ==> is_sealed_packet(
            me,
            ptype,
            flags,
            0,
            peers[i],
            inner,
            #[trigger] packets[i],
        )
}

/// The world after each peer was sent its packet.
pub open spec fn peers_sent(w: World, peers: Seq<Seq<u8>>, packets: Seq<Seq<u8>>) -> World
    decreases packets.len(),
{
    if packets.len() == 0 {
        w
    } else {
        sent_to_peer(
            peers_sent(w, peers, packets.drop_last()),
            peers[packets.len() - 1],
            packets.last(),
        )
    }
}

/// The public keys of the friends whose stored user ID is one.
pub open spec fn friend_keys(book: Seq<FriendView>) -> Seq<Seq<u8>>
    decreases book.len(),
{
    if book.len() == 0 {
        Seq::empty()
    } else {
        let front = friend_keys(book.drop_last());
        match id::id_of_text(book.last().pubkey) {
            Ok(k) => front.push(k),
            Err(_) => front,
        }
    }
}

/// A list of keys without one of them.
pub open spec fn keys_but(v: Seq<Seq<u8>>, k: Seq<u8>) -> Seq<Seq<u8>>
    decreases v.len(),
{
    if v.len() == 0 {
        v
    } else {
        let front = keys_but(v.drop_last(), k);
        if v.last() == k {
            front
        } else {
            front.push(v.last())
        }
    }
}

/// Sending to peers changes nothing but the outputs.
pub proof fn lemma_peers_sent(w: World, peers: Seq<Seq<u8>>, packets: Seq<Seq<u8>>)
    ensures
        peers_sent(w, peers, packets).net == w.net,
        peers_sent(w, peers, packets).book == w.book,
        peers_sent(w, peers, packets).unsaved == w.unsaved,
    decreases packets.len(),
{
    if packets.len() > 0 {
        lemma_peers_sent(w, peers, packets.drop_last());
    }
}

/// Only the peers that are sent something matter.
proof fn lemma_peers_prefix(
    w: World,
    a: Seq<Seq<u8>>,
    b: Seq<Seq<u8>>,
    packets: Seq<Seq<u8>>,
)
    requires
        packets.len() <= a.len(),
        packets.len() <= b.len(),
        forall|i: int| 0 <= i < packets.len() ==> a[i] == b[i],
    ensures
        peers_sent(w, a, packets) == peers_sent(w, b, packets),
    decreases packets.len(),
{
    if packets.len() > 0 {
        lemma_peers_prefix(w, a, b, packets.drop_last());
    }
}

/// The public keys of all friends.
pub fn all_friend_keys(friends: &FriendStore) -> (r: Vec<[u8; 32]>)
    ensures
        keys(r@) == friend_keys(friends@),
{
    let ghost book = friends@;
    let mut r: Vec<[u8; 32]> = Vec::new();
    let mut i: usize = 0;
    assert(keys(r@) =~= friend_keys(book.take(0)));
    while i < friends.data.friends.len()
        invariant
            i <= friends.data.friends@.len(),
            book == friends@,
            keys(r@) == friend_keys(book.take(i as int)),
        decreases friends.data.friends@.len() - i,
    {
        let ghost before = keys(r@);
        assert(book[i as int] == friends.data.friends@[i as int]@);
        match id::decode(&friends.data.friends[i].pubkey) {
            Ok(k) => {
                r.push(k);
                assert(keys(r@) =~= before.push(k@));
            },
            Err(_) => {},
        }
        i = i + 1;
        assert(book.take(i as int).drop_last() =~= book.take(i - 1));
    }
    assert(book.take(i as int) =~= book);
    r
}

/// The public keys of all friends but one.
pub fn other_friend_keys(friends: &FriendStore, k: &[u8; 32]) -> (r: Vec<[u8; 32]>)
    ensures
        keys(r@) == keys_but(friend_keys(friends@), k@),
{
    let all = all_friend_keys(friends);
    let ghost v = keys(all@);
    let mut r: Vec<[u8; 32]> = Vec::new();
    let mut i: usize = 0;
    assert(keys(r@) =~= keys_but(v.take(0), k@));
    while i < all.len()
        invariant
            i <= all@.len(),
            v == keys(all@),
            keys(r@) == keys_but(v.take(i as int), k@),
        decreases all@.len() - i,
    {
        let ghost before = keys(r@);
        if !same_array(&all[i], k) {
            r.push(all[i]);
            assert(keys(r@) =~= before.push(v[i as int]));
        }
        i = i + 1;
        assert(v.take(i as int).drop_last() =~= v.take(i - 1));
    }
    assert(v.take(i as int) =~= v);
    r
}

impl Network {
    /// Seals a plaintext for each peer for whom that is possible, sends the
    /// packets, and returns them.
    pub fn send_round(
        &self,
        friends: &FriendStore,
        ptype: PktType,
        flags: u8,
        peers: &[[u8; 32]],
        inner: &[u8],
        out: &mut Vec<Output>,
    ) -> (r: Vec<Addressed>)
        ensures
            peers_of(r@) == sealable(keys(peers@), inner@.len()),
            are_sealed_for(self@.me, ptype, flags, peers_of(r@), inner@, bytes_of(r@)),
            world(*self, *friends, final(out)@) == peers_sent(
                world(*self, *friends, old(out)@),
                peers_of(r@),
                bytes_of(r@),
            ),
    {
        let ghost w = world(*self, *friends, out@);
        let ghost all = keys(peers@);
        let mut r: Vec<Addressed> = Vec::new();
        let mut i: usize = 0;
        assert(peers_of(r@) =~= sealable(all.take(0), inner@.len()));
        assert(bytes_of(r@) =~= Seq::<Seq<u8>>::empty());
        while i < peers.len()
            invariant
                i <= peers@.len(),
                all == keys(peers@),
                peers_of(r@) == sealable(all.take(i as int), inner@.len()),
                are_sealed_for(self@.me, ptype, flags, peers_of(r@), inner@, bytes_of(r@)),
                world(*self, *friends, out@) == peers_sent(w, peers_of(r@), bytes_of(r@)),
            decreases peers@.len() - i,
        {
            let ghost before_peers = peers_of(r@);
            let ghost before_bytes = bytes_of(r@);
            let ghost cur = world(*self, *friends, out@);
            let peer: [u8; 32] = peers[i];
            assert(all.take(i + 1).drop_last() =~= all.take(i as int));
            match cipher::ed_pub_to_x25519(&peer) {
                Some(x) => match self.seal_packet(ptype, flags, 0, &peer, &x, inner) {
                    Ok(bytes) => {
                        self.send_to_peer(friends, &bytes, &peer, out);
                        let ghost packet = bytes@;
                        r.push(Addressed { peer, bytes });
                        assert(peers_of(r@) =~= before_peers.push(peer@));
                        assert(bytes_of(r@) =~= before_bytes.push(packet));
                        proof {
                            assert(bytes_of(r@).drop_last() =~= before_bytes);
                            lemma_peers_prefix(w, before_peers, peers_of(r@), before_bytes);
                        }
                    },
                    Err(_) => {},
                },
                None => {},
            }
            i = i + 1;
        }
        assert(all.take(i as int) =~= all);
        r
    }
}

} // verus!
