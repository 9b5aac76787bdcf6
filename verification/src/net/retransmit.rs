//! Retransmission of packets that may get lost.
//!
//! A packet is sent again every [`RETRY_INTERVAL`] until it is acknowledged,
//! at most [`MAX_RETRIES`] times; after that it has failed. Times are
//! milliseconds of a clock that only goes forward.

use vstd::prelude::*;

use crate::bytes::copy_of;
use crate::table::{lookup, put, without, Table};

verus! {

/// Milliseconds between two transmissions.
pub const RETRY_INTERVAL: u64 = 2_000;

/// How often a packet is sent again.
pub const MAX_RETRIES: u32 = 3;

/// A packet that waits for its acknowledgement.
pub struct PendingPacket {
    pub bytes: Vec<u8>,
    pub recipient: [u8; 32],
    pub seq: u32,
    /// How often it was sent again.
    pub attempts: u32,
    /// When it is due again.
    pub next_retry: u64,
}

/// The contents of a [`PendingPacket`].
#[verifier::ext_equal]
pub struct PendingView {
    pub bytes: Seq<u8>,
    pub recipient: Seq<u8>,
    pub seq: u32,
    pub attempts: u32,
    pub next_retry: u64,
}

impl View for PendingPacket {
    type V = PendingView;

    open spec fn view(&self) -> PendingView {
        PendingView {
            bytes: self.bytes@,
            recipient: self.recipient@,
            seq: self.seq,
            attempts: self.attempts,
            next_retry: self.next_retry,
        }
    }
}

impl Clone for PendingPacket {
    fn clone(&self) -> (r: Self)
        ensures
            r@ == self@,
    {
        PendingPacket {
            bytes: copy_of(&self.bytes),
            recipient: self.recipient,
            seq: self.seq,
            attempts: self.attempts,
            next_retry: self.next_retry,
        }
    }
}

/// The packets that wait, by recipient and sequence number.
pub type Waiting = Seq<((Seq<u8>, u32), PendingView)>;

/// The contents of a list of packets.
pub open spec fn pending_views(v: Seq<PendingPacket>) -> Seq<PendingView> {
    Seq::new(v.len(), |i: int| v[i]@)
}

/// A time that is a while after another; the last time that can be told is
/// not passed.
pub open spec fn after(now: u64, wait: u64) -> u64 {
    if now + wait > u64::MAX {
        u64::MAX
    } else {
        (now + wait) as u64
    }
}

/// A time that is a while after another.
pub fn time_after(now: u64, wait: u64) -> (r: u64)
    ensures
        r == after(now, wait),
{
    now.saturating_add(wait)
}

/// A waiting packet that is due and may be sent again.
pub open spec fn is_resend(p: PendingView, now: u64) -> bool {
    now >= p.next_retry && p.attempts < MAX_RETRIES
}

/// A waiting packet that is due and was sent again often enough.
pub open spec fn is_failure(p: PendingView, now: u64) -> bool {
    now >= p.next_retry && p.attempts >= MAX_RETRIES
}

/// A packet that was sent again.
pub open spec fn bumped(p: PendingView, now: u64) -> PendingView {
    PendingView { attempts: (p.attempts + 1) as u32, next_retry: after(now, RETRY_INTERVAL), ..p }
}

/// The packets that still wait after a poll.
pub open spec fn still_waiting(s: Waiting, now: u64) -> Waiting
    decreases s.len(),
{
    if s.len() == 0 {
        s
    } else {
        let front = still_waiting(s.drop_last(), now);
        let (k, p) = s.last();
        if is_failure(p, now) {
            front
        } else if is_resend(p, now) {
            front.push((k, bumped(p, now)))
        } else {
            front.push((k, p))
        }
    }
}

/// The packets that a poll sends again.
pub open spec fn resends(s: Waiting, now: u64) -> Seq<PendingView>
    decreases s.len(),
{
    if s.len() == 0 {
        Seq::empty()
    } else {
        let front = resends(s.drop_last(), now);
        let p = s.last().1;
        if is_resend(p, now) {
            front.push(bumped(p, now))
        } else {
            front
        }
    }
}

/// The packets that a poll gives up, under the recipient and number that they
/// wait for.
pub open spec fn failures(s: Waiting, now: u64) -> Seq<PendingView>
    decreases s.len(),
{
    if s.len() == 0 {
        Seq::empty()
    } else {
        let front = failures(s.drop_last(), now);
        let (k, p) = s.last();
        if is_failure(p, now) {
            front.push(PendingView { recipient: k.0, seq: k.1, ..p })
        } else {
            front
        }
    }
}

pub struct Retransmitter {
    pub pending: Table<([u8; 32], u32), PendingPacket>,
}

impl View for Retransmitter {
    type V = Waiting;

    open spec fn view(&self) -> Waiting {
        self.pending@
    }
}

impl Default for Retransmitter {
    fn default() -> (r: Self)
        ensures
            r@ == Seq::<((Seq<u8>, u32), PendingView)>::empty(),
    {
        Retransmitter { pending: Table::new() }
    }
}

impl Retransmitter {
    /// Whether no packet waits.
    pub fn is_empty(&self) -> (r: bool)
        ensures
            r == (self@.len() == 0),
    {
        self.pending.len() == 0
    }

    /// Lets a packet wait for its acknowledgement.
    pub fn insert(&mut self, p: PendingPacket)
        ensures
            final(self)@ == put(old(self)@, (p.recipient@, p.seq), p@),
    {
        self.pending.insert((p.recipient, p.seq), p);
    }

    /// An acknowledgement ends the wait.
    pub fn ack(&mut self, recipient: &[u8; 32], seq: u32) -> (r: Option<PendingPacket>)
        ensures
            final(self)@ == without(old(self)@, (recipient@, seq)),
            match lookup(old(self)@, (recipient@, seq)) {
                Some(p) => r matches Some(x) && x@ == p,
                None => r is None,
            },
    {
        self.pending.remove(&(*recipient, seq))
    }

    /// The next time at which a packet is due that is not due yet.
    pub fn next_deadline(&self, now: u64) -> (r: Option<u64>)
        ensures
            r is None <==> forall|i: int|
                0 <= i < self@.len() ==> (#[trigger] self@[i]).1.next_retry <= now,
            r matches Some(d) ==> {
                &&& d > now
                &&& exists|i: int| 0 <= i < self@.len() && (#[trigger] self@[i]).1.next_retry == d
                &&& forall|i: int|
                    0 <= i < self@.len() && (#[trigger] self@[i]).1.next_retry > now ==> d
                        <= self@[i].1.next_retry
            },
    {
        let mut best: Option<u64> = None;
        let mut i: usize = 0;
        while i < self.pending.entries.len()
            invariant
                i <= self.pending.entries@.len(),
                best is None <==> forall|j: int|
                    0 <= j < i ==> (#[trigger] self@[j]).1.next_retry <= now,
                best matches Some(d) ==> {
                    &&& d > now
                    &&& exists|j: int| 0 <= j < i && (#[trigger] self@[j]).1.next_retry == d
                    &&& forall|j: int|
                        0 <= j < i && (#[trigger] self@[j]).1.next_retry > now ==> d
                            <= self@[j].1.next_retry
                },
            decreases self.pending.entries@.len() - i,
        {
            let d: u64 = self.pending.entries[i].1.next_retry;
            assert(self@[i as int].1.next_retry == d);
            if d > now {
                match best {
                    Some(b) => {
                        if d < b {
                            best = Some(d);
                        }
                    },
                    None => {
                        best = Some(d);
                    },
                }
            }
            i = i + 1;
        }
        best
    }

    /// Goes over the packets that are due: those to be sent again, and those
    /// that have failed and wait no longer.
    pub fn poll_retries(&mut self, now: u64) -> (r: (Vec<PendingPacket>, Vec<PendingPacket>))
        ensures
            final(self)@ == still_waiting(old(self)@, now),
            pending_views(r.0@) == resends(old(self)@, now),
            pending_views(r.1@) == failures(old(self)@, now),
    {
        let ghost all = self@;
        let mut again: Vec<PendingPacket> = Vec::new();
        let mut failed: Vec<PendingPacket> = Vec::new();
        let mut i: usize = 0;
        let ghost mut done: int = 0;
        assert(self@ =~= still_waiting(all.take(0), now) + all.skip(0));
        assert(pending_views(again@) =~= resends(all.take(0), now));
        assert(pending_views(failed@) =~= failures(all.take(0), now));
        while i < self.pending.entries.len()
            invariant
                0 <= done <= all.len(),
                i <= self.pending.entries@.len(),
                self.pending.entries@.len() - i == all.len() - done,
                i == still_waiting(all.take(done), now).len(),
                self@ == still_waiting(all.take(done), now) + all.skip(done),
                pending_views(again@) == resends(all.take(done), now),
                pending_views(failed@) == failures(all.take(done), now),
            decreases self.pending.entries@.len() - i,
        {
            let ghost kept = still_waiting(all.take(done), now);
            let ghost whole = self@;
            let ghost before_again = pending_views(again@);
            let ghost before_failed = pending_views(failed@);
            assert(whole[i as int] == all[done]);
            assert(all.take(done + 1).drop_last() =~= all.take(done));
            if now >= self.pending.entries[i].1.next_retry {
                if self.pending.entries[i].1.attempts >= MAX_RETRIES {
                    let (k, mut p) = self.pending.entries.remove(i);
                    assert(self@ =~= whole.remove(i as int));
                    assert(self@ =~= kept + all.skip(done + 1));
                    p.recipient = k.0;
                    p.seq = k.1;
                    let ghost pv = p@;
                    failed.push(p);
                    assert(pending_views(failed@) =~= before_failed.push(pv));
                } else {
                    let mut p = self.pending.entries[i].1.clone();
                    p.attempts = p.attempts + 1;
                    p.next_retry = time_after(now, RETRY_INTERVAL);
                    let ghost pv = p@;
                    assert(pv =~= bumped(all[done].1, now));
                    again.push(p.clone());
                    assert(pending_views(again@) =~= before_again.push(pv));
                    let k = (self.pending.entries[i].0.0, self.pending.entries[i].0.1);
                    self.pending.entries[i] = (k, p);
                    assert(self@ =~= whole.update(i as int, (all[done].0, pv)));
                    assert(self@ =~= kept.push((all[done].0, pv)) + all.skip(done + 1));
                    i = i + 1;
                }
            } else {
                assert(self@ =~= kept.push(all[done]) + all.skip(done + 1));
                i = i + 1;
            }
            proof {
                done = done + 1;
            }
        }
        assert(all.take(done) =~= all);
        assert(self@ =~= still_waiting(all, now));
        (again, failed)
    }
}

// ---------- laws ----------

/// What a poll leaves of one waiting packet.
pub open spec fn polled(p: PendingView, now: u64) -> Option<PendingView> {
    if is_failure(p, now) {
        None
    } else if is_resend(p, now) {
        Some(bumped(p, now))
    } else {
        Some(p)
    }
}

/// How often one packet is sent again by polls at the given times.
pub open spec fn resend_count(p: Option<PendingView>, times: Seq<u64>) -> nat
    decreases times.len(),
{
    match p {
        None => 0,
        Some(q) => if times.len() == 0 {
            0
        } else {
            resend_count(polled(q, times[0]), times.drop_first()) + (if is_resend(q, times[0]) {
                1nat
            } else {
                0nat
            })
        },
    }
}

/// However often it is polled, a packet is sent again at most three times.
pub proof fn law_retry_limit(p: PendingView, times: Seq<u64>)
    requires
        p.attempts <= MAX_RETRIES,
    ensures
        resend_count(Some(p), times) + p.attempts <= MAX_RETRIES,
    decreases times.len(),
{
    if times.len() > 0 {
        match polled(p, times[0]) {
            Some(q) => law_retry_limit(q, times.drop_first()),
            None => {},
        }
    }
}

/// A packet that was sent again is not due before the interval has passed,
/// unless time has come to its end.
pub proof fn law_retry_interval(p: PendingView, now: u64, later: u64)
    requires
        is_resend(p, now),
        later < now + RETRY_INTERVAL,
        later < u64::MAX,
    ensures
        polled(bumped(p, now), later) == Some(bumped(p, now)),
        !is_resend(bumped(p, now), later),
        !is_failure(bumped(p, now), later),
{
}

/// A poll handles each waiting packet by itself: it keeps what `polled` keeps
/// and reports the rest as failed, and no packet is both sent again and given
/// up.
pub proof fn law_poll_splits(s: Waiting, now: u64)
    ensures
        still_waiting(s, now).len() + failures(s, now).len() == s.len(),
        resends(s, now).len() <= still_waiting(s, now).len(),
        forall|i: int|
            0 <= i < still_waiting(s, now).len() ==> exists|j: int|
                0 <= j < s.len() && s[j].0 == (#[trigger] still_waiting(s, now)[i]).0 && polled(
                    (#[trigger] s[j]).1,
                    now,
                ) == Some(still_waiting(s, now)[i].1),
    decreases s.len(),
{
    if s.len() > 0 {
        let t = s.drop_last();
        law_poll_splits(t, now);
        let r = still_waiting(s, now);
        let q = still_waiting(t, now);
        assert forall|i: int| 0 <= i < r.len() implies exists|j: int|
            0 <= j < s.len() && s[j].0 == (#[trigger] r[i]).0 && polled((#[trigger] s[j]).1, now)
                == Some(r[i].1) by {
            if i < q.len() {
                assert(r[i] == q[i]);
                let j = choose|j: int|
                    0 <= j < t.len() && t[j].0 == q[i].0 && polled((#[trigger] t[j]).1, now)
                        == Some(q[i].1);
                assert(s[j] == t[j]);
            } else {
                assert(s[s.len() - 1].0 == r[i].0);
            }
        }
    }
}

} // verus!
