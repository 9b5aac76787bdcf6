//! State kept for each peer: which sequence numbers have come in, so that
//! retransmitted packets are not taken twice.

use vstd::prelude::*;

use crate::table::{has_key, lemma_key_index, lookup, put, Table};

verus! {

/// How many sequence numbers are remembered.
pub const MAX_SEEN: usize = 256;

/// The sequence numbers of a peer that came in last.
pub struct PeerSession {
    pub seen: Vec<u32>,
}

impl View for PeerSession {
    type V = Seq<u32>;

    open spec fn view(&self) -> Seq<u32> {
        self.seen@
    }
}

/// The last numbers, as many as are remembered.
pub open spec fn last_seen_numbers(s: Seq<u32>) -> Seq<u32> {
    if s.len() > MAX_SEEN {
        s.skip(s.len() - MAX_SEEN)
    } else {
        s
    }
}

/// The numbers remembered after `seq` came in.
pub open spec fn marked(s: Seq<u32>, seq: u32) -> Seq<u32> {
    if s.contains(seq) {
        s
    } else {
        last_seen_numbers(s.push(seq))
    }
}

impl PeerSession {
    pub fn new() -> (r: Self)
        ensures
            r@ == Seq::<u32>::empty(),
    {
        PeerSession { seen: Vec::new() }
    }

    pub fn is_seen(&self, seq: u32) -> (r: bool)
        ensures
            r == self@.contains(seq),
    {
        let mut i: usize = 0;
        while i < self.seen.len()
            invariant
                i <= self.seen@.len(),
                forall|j: int| 0 <= j < i ==> self.seen@[j] != seq,
            decreases self.seen@.len() - i,
        {
            if self.seen[i] == seq {
                return true;
            }
            i = i + 1;
        }
        false
    }

    pub fn mark_seen(&mut self, seq: u32)
        ensures
            final(self)@ == marked(old(self)@, seq),
    {
        if self.is_seen(seq) {
            return;
        }
        let ghost all = self@.push(seq);
        self.seen.push(seq);
        assert(self@ =~= all.skip(0));
        let ghost mut cut: int = 0;
        while self.seen.len() > MAX_SEEN
            invariant
                0 <= cut <= all.len(),
                self@ == all.skip(cut),
                cut > 0 ==> self@.len() >= MAX_SEEN,
            decreases self.seen@.len(),
        {
            let _ = self.seen.remove(0);
            proof {
                cut = cut + 1;
            }
            assert(self@ =~= all.skip(cut));
        }
        assert(self@ =~= last_seen_numbers(all));
    }
}

/// The numbers remembered after several came in.
pub open spec fn marked_all(s: Seq<u32>, qs: Seq<u32>) -> Seq<u32>
    decreases qs.len(),
{
    if qs.len() == 0 {
        s
    } else {
        marked(marked_all(s, qs.drop_last()), qs.last())
    }
}

/// How far from the end a number stands.
spec fn recent(s: Seq<u32>, seq: u32, n: int) -> bool {
    exists|i: int| 0 <= i < s.len() && s.len() - n <= i && s[i] == seq
}

/// A number that came in is recognised, and still is after up to 255 others.
pub proof fn law_seen_window(s: Seq<u32>, seq: u32, others: Seq<u32>)
    requires
        others.len() < 256,
        s.len() <= 256,
        !s.contains(seq),
    ensures
        marked(s, seq).contains(seq),
        marked_all(marked(s, seq), others).contains(seq),
{
    let t = s.push(seq);
    let m = marked(s, seq);
    assert(m[m.len() - 1] == seq) by {
        if t.len() > MAX_SEEN {
            assert(m[m.len() - 1] == t[t.len() - 1]);
        }
    }
    lemma_recent(m, seq, others);
}

proof fn lemma_recent(m: Seq<u32>, seq: u32, others: Seq<u32>)
    requires
        others.len() < MAX_SEEN,
        m.len() > 0,
        m.last() == seq,
    ensures
        recent(marked_all(m, others), seq, others.len() as int + 1),
        marked_all(m, others).contains(seq),
    decreases others.len(),
{
    if others.len() > 0 {
        let rest = others.drop_last();
        lemma_recent(m, seq, rest);
        let a = marked_all(m, rest);
        let b = marked_all(m, others);
        let n = rest.len() as int;
        let i = choose|i: int| 0 <= i < a.len() && a.len() - (n + 1) <= i && a[i] == seq;
        if a.contains(others.last()) {
            assert(b == a);
            assert(b[i] == seq);
        } else {
            let t = a.push(others.last());
            assert(t[i] == seq);
            if t.len() > MAX_SEEN {
                let k = i - (t.len() - MAX_SEEN);
                assert(b[k] == t[i]);
                assert(b.len() - (n + 2) <= k);
            } else {
                assert(b[i] == seq);
            }
        }
    } else {
        assert(m[m.len() - 1] == seq);
    }
}

/// At most 256 numbers are remembered, and none of them twice.
pub proof fn law_seen_bounded(s: Seq<u32>, seq: u32)
    requires
        s.len() <= 256,
        s.no_duplicates(),
    ensures
        marked(s, seq).len() <= 256,
        marked(s, seq).no_duplicates(),
{
    if !s.contains(seq) {
        let t = s.push(seq);
        assert(t.no_duplicates());
    }
}

/// The sessions of all peers.
pub struct SessionTable {
    pub peers: Table<[u8; 32], PeerSession>,
}

/// The numbers remembered for each peer.
pub type Sessions = Seq<(Seq<u8>, Seq<u32>)>;

impl View for SessionTable {
    type V = Sessions;

    open spec fn view(&self) -> Sessions {
        self.peers@
    }
}

impl Default for SessionTable {
    fn default() -> (r: Self)
        ensures
            r@ == Seq::<(Seq<u8>, Seq<u32>)>::empty(),
    {
        SessionTable { peers: Table::new() }
    }
}

/// The numbers remembered for a peer.
pub open spec fn session_of(s: Sessions, id: Seq<u8>) -> Seq<u32> {
    match lookup(s, id) {
        Some(v) => v,
        None => Seq::empty(),
    }
}

impl SessionTable {
    /// The session of a peer, begun where there is none yet.
    pub fn get_mut(&mut self, id: &[u8; 32]) -> (r: &mut PeerSession)
        ensures
            r@ == session_of(old(self)@, id@),
            final(self)@ == put(old(self)@, id@, final(r)@),
    {
        let ghost before = self@;
        proof {
            lemma_key_index(before, id@);
        }
        if !self.peers.contains(id) {
            self.peers.insert(*id, PeerSession::new());
        }
        let i: usize = self.peers.find(id);
        proof {
            lemma_key_index(self@, id@);
            if has_key(before, id@) {
                assert(self@ == before);
            } else {
                assert(self@ == before.push((id@, Seq::<u32>::empty())));
                crate::table::lemma_key_index_is(self@, id@, before.len() as int);
                assert forall|v: Seq<u32>| #[trigger]
                    self@.update(i as int, (id@, v)) == before.push((id@, v)) by {
                    assert(self@.update(i as int, (id@, v)) =~= before.push((id@, v)));
                }
            }
        }
        self.peers.value_mut(i)
    }
}

} // verus!
