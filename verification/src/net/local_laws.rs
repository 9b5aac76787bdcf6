//! When the addresses of this machine count.

use vstd::prelude::*;

use crate::net::announce::{
    check_due, gives_up_by, polls_probes, probes_over, probes_polled, LocalIps,
};
use crate::net::attach::recvs_kept;
use crate::net::driver::{all_given_up, checks_address, resends_sent, retransmitted, ticks};
use crate::net::lookup::{queries_checked, repeats_at, repeats_by, repeats_queries};
use crate::net::node::{NetState, PushView, World};
use crate::net::pushes::{
    delivered, delivers_pushes, polls_pushes, polls_pushes_by, polls_pushes_for, pushes_for,
    pushes_pruned, pushes_sent, table_keys,
};
use crate::net::retransmit::{failures, resends, still_waiting, PendingView};
use crate::net::rounds::{lemma_peers_sent, peers_sent};

verus! {

/// Whether two states agree on what the look at the local addresses depends
/// on.
spec fn same_watch(a: NetState, b: NetState) -> bool {
    &&& a.ip_probes == b.ip_probes
    &&& a.stable_ipv4 == b.stable_ipv4
    &&& a.next_local_ip_check == b.next_local_ip_check
}

/// Where no look at the local addresses is due and no probe waits, it does not
/// matter which addresses this machine has.
pub proof fn law_local_ips_unused(w: World, w2: World, now: u64, a: LocalIps, b: LocalIps)
    requires
        !check_due(w.net, now),
        w.net.ip_probes.len() == 0,
        ticks(w, w2, now, a),
    ensures
        ticks(w, w2, now, b),
{
    let w1 = queries_checked(retransmitted(w, now), now);
    let (x, y, z, v) = choose|x: World, y: World, z: World, v: World|
        repeats_queries(w1, x, now) && #[trigger] polls_probes(x, y, now, a)
            && #[trigger] polls_pushes(y, z, now) && #[trigger] checks_address(z, v, now, a) && w2
            == (World {
            net: NetState { attach_recvs: recvs_kept(v.net.attach_recvs, now), ..v.net },
            ..v
        });
    lemma_retransmitted(w, now);
    lemma_repeats(w1, x, now);
    lemma_probes(x, y, now, a, b);
    lemma_pushes(y, z, now);
    assert(checks_address(z, v, now, b));
}

proof fn lemma_retransmitted(w: World, now: u64)
    ensures
        same_watch(retransmitted(w, now).net, w.net),
{
    let a = World { net: NetState { retx: still_waiting(w.net.retx, now), ..w.net }, ..w };
    lemma_resends(a, resends(w.net.retx, now));
    lemma_given_up(resends_sent(a, resends(w.net.retx, now)), failures(w.net.retx, now));
}

proof fn lemma_resends(w: World, again: Seq<PendingView>)
    ensures
        resends_sent(w, again).net == w.net,
    decreases again.len(),
{
    if again.len() > 0 {
        lemma_resends(w, again.drop_last());
    }
}

proof fn lemma_given_up(w: World, failed: Seq<PendingView>)
    ensures
        same_watch(all_given_up(w, failed).net, w.net),
    decreases failed.len(),
{
    if failed.len() > 0 {
        lemma_given_up(w, failed.drop_last());
    }
}

proof fn lemma_repeats(w: World, w2: World, now: u64)
    requires
        repeats_queries(w, w2, now),
    ensures
        same_watch(w2.net, w.net),
{
    let steps = choose|steps: Seq<World>| #[trigger] repeats_by(w, w2, steps, now);
    lemma_repeats_steps(w, w2, steps, now, w.net.addr_queries.len() as int);
}

proof fn lemma_repeats_steps(w: World, w2: World, steps: Seq<World>, now: u64, i: int)
    requires
        repeats_by(w, w2, steps, now),
        0 <= i <= w.net.addr_queries.len(),
    ensures
        same_watch(steps[i].net, w.net),
    decreases i,
{
    if i > 0 {
        lemma_repeats_steps(w, w2, steps, now, i - 1);
        assert(repeats_at(steps, i - 1, now));
        assert forall|a: World, peers: Seq<Seq<u8>>, packets: Seq<Seq<u8>>|
            (#[trigger] peers_sent(a, peers, packets)).net == a.net by {
            lemma_peers_sent(a, peers, packets);
        }
    }
}

proof fn lemma_probes(w: World, w2: World, now: u64, a: LocalIps, b: LocalIps)
    requires
        w.net.ip_probes.len() == 0,
        polls_probes(w, w2, now, a),
    ensures
        polls_probes(w, w2, now, b),
        same_watch(w2.net, w.net),
{
    let over = probes_over(w.net.ip_probes, now);
    let p = probes_polled(w, now);
    let steps = choose|steps: Seq<World>| #[trigger] gives_up_by(p, w2, over, steps, a);
    assert(gives_up_by(p, w2, over, steps, b));
    assert(p.net.ip_probes =~= w.net.ip_probes);
}

proof fn lemma_pushes(w: World, w2: World, now: u64)
    requires
        polls_pushes(w, w2, now),
    ensures
        same_watch(w2.net, w.net),
{
    let victims = table_keys(w.net.pending_pushes);
    let steps = choose|steps: Seq<World>| #[trigger]
        polls_pushes_by(w, w2, victims, steps, now);
    lemma_pushes_steps(w, w2, victims, steps, now, victims.len() as int);
}

proof fn lemma_pushes_steps(
    w: World,
    w2: World,
    victims: Seq<Seq<u8>>,
    steps: Seq<World>,
    now: u64,
    i: int,
)
    requires
        polls_pushes_by(w, w2, victims, steps, now),
        0 <= i <= victims.len(),
    ensures
        same_watch(steps[i].net, w.net),
    decreases i,
{
    if i > 0 {
        lemma_pushes_steps(w, w2, victims, steps, now, i - 1);
        let s = steps[i - 1];
        let victim = victims[i - 1];
        assert(polls_pushes_for(s, steps[i - 1 + 1], victim, now));
        let a = choose|a: World| #[trigger]
            delivers_pushes(s, a, victim, now) && steps[i] == (World {
                net: pushes_pruned(a.net, victim),
                ..a
            });
        assert forall|packets: Seq<Seq<u8>>| same_watch(
            (#[trigger] delivered(s, victim, packets, now)).net,
            s.net,
        ) by {
            lemma_pushes_sent(s, victim, pushes_for(s.net, victim), packets, now);
        }
    }
}

proof fn lemma_pushes_sent(
    w: World,
    victim: Seq<u8>,
    list: Seq<PushView>,
    packets: Seq<Seq<u8>>,
    now: u64,
)
    ensures
        pushes_sent(w, victim, list, packets, now).net == w.net,
    decreases packets.len(),
{
    if packets.len() > 0 {
        lemma_pushes_sent(w, victim, list, packets.drop_last(), now);
    }
}

} // verus!
