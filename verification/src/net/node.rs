//! The state of a node and the steps that the rest of the network layer is
//! made of.
//!
//! A node is a state machine: a step takes a packet, a command or the passing
//! of time, changes the state and the friend list, and appends to a list of
//! outputs. Sealing a packet draws a fresh key and nonce, so that contracts
//! speak of *some* sealed packet with given contents ([`is_sealed_packet`]).

use std::collections::HashSet;

use vstd::prelude::*;

use crate::bytes::{copy_of, same_array};
use crate::config::DEFAULT_PORT;
use crate::crypto::cipher::{self, CipherError, SealedView};
use crate::crypto::keys::Identity;
use crate::crypto::primitives;
use crate::net::event::{outs, push_output, EventView, Moment, NetEvent, OutView, Output};
use crate::net::ip::{AddrView, SocketAddr};
use crate::net::packet::{
    envelope, envelope_close, envelope_of, envelope_open, law_envelope_round_trip,
    lemma_unsigned_len, signed_bytes,
    Packet, PacketError, PacketView, PktType, HEADER_LEN, SIG_LEN,
};
use crate::net::retransmit::{
    after, time_after, PendingPacket, PendingView, Retransmitter, Waiting, RETRY_INTERVAL,
};
use crate::net::session::{SessionTable, Sessions};
use crate::net::socket::{parse_sockaddr, parsed_addr, send_form, to_send_addr};
use crate::table::{put, Table};
use crate::proto::addressing::keys;
use crate::proto::ProtoError;
use crate::store::friends::{book_seen, friend_of, has_friend, FriendStore, FriendView};
use crate::text::{clone_texts, opt_text, texts};

verus! {

// ---------- parts of the state ----------

/// An attachment that is being sent.
pub struct AttachSend {
    pub recipient: [u8; 32],
    pub total_chunks: u32,
    /// Indices of the chunks that were acknowledged.
    pub acked: HashSet<u32>,
}

/// The contents of an [`AttachSend`].
#[verifier::ext_equal]
pub struct AttachSendView {
    pub recipient: Seq<u8>,
    pub total_chunks: u32,
    pub acked: Set<u32>,
}

impl View for AttachSend {
    type V = AttachSendView;

    open spec fn view(&self) -> AttachSendView {
        AttachSendView {
            recipient: self.recipient@,
            total_chunks: self.total_chunks,
            acked: self.acked@,
        }
    }
}

/// An attachment that is coming in.
pub struct AttachRecv {
    pub kind: u8,
    pub name: String,
    pub total_size: u64,
    pub total_chunks: u32,
    pub data: Vec<u8>,
    /// Indices of the chunks that came in.
    pub got: HashSet<u32>,
    pub updated: u64,
}

/// The contents of an [`AttachRecv`].
#[verifier::ext_equal]
pub struct AttachRecvView {
    pub kind: u8,
    pub name: Seq<char>,
    pub total_size: u64,
    pub total_chunks: u32,
    pub data: Seq<u8>,
    pub got: Set<u32>,
    pub updated: u64,
}

impl View for AttachRecv {
    type V = AttachRecvView;

    open spec fn view(&self) -> AttachRecvView {
        AttachRecvView {
            kind: self.kind,
            name: self.name@,
            total_size: self.total_size,
            total_chunks: self.total_chunks,
            data: self.data@,
            got: self.got@,
            updated: self.updated,
        }
    }
}

/// Which chunk a sequence number belongs to.
pub struct ChunkRef {
    pub recipient: [u8; 32],
    pub transfer: [u8; 16],
    pub index: u32,
}

/// The contents of a [`ChunkRef`].
#[verifier::ext_equal]
pub struct ChunkRefView {
    pub recipient: Seq<u8>,
    pub transfer: Seq<u8>,
    pub index: u32,
}

impl View for ChunkRef {
    type V = ChunkRefView;

    open spec fn view(&self) -> ChunkRefView {
        ChunkRefView {
            recipient: self.recipient@,
            transfer: self.transfer@,
            index: self.index,
        }
    }
}

/// An address query that waits for answers.
pub struct PendingQuery {
    pub target: [u8; 32],
    pub started: u64,
    pub asked: Vec<[u8; 32]>,
    pub answered: Vec<[u8; 32]>,
    pub fail_seqs: Vec<u32>,
    pub attempts: u8,
    pub next_retry: u64,
}

/// The contents of a [`PendingQuery`].
#[verifier::ext_equal]
pub struct QueryView {
    pub target: Seq<u8>,
    pub started: u64,
    pub asked: Seq<Seq<u8>>,
    pub answered: Seq<Seq<u8>>,
    pub fail_seqs: Seq<u32>,
    pub attempts: u8,
    pub next_retry: u64,
}

impl View for PendingQuery {
    type V = QueryView;

    open spec fn view(&self) -> QueryView {
        QueryView {
            target: self.target@,
            started: self.started,
            asked: keys(self.asked@),
            answered: keys(self.answered@),
            fail_seqs: self.fail_seqs@,
            attempts: self.attempts,
            next_retry: self.next_retry,
        }
    }
}

/// A probe that a friend has not confirmed.
pub struct PendingProbe {
    pub bytes: Vec<u8>,
    pub probe_id: u64,
    pub attempts: u32,
    pub next_try: u64,
}

/// The contents of a [`PendingProbe`].
#[verifier::ext_equal]
pub struct ProbeView {
    pub bytes: Seq<u8>,
    pub probe_id: u64,
    pub attempts: u32,
    pub next_try: u64,
}

impl View for PendingProbe {
    type V = ProbeView;

    open spec fn view(&self) -> ProbeView {
        ProbeView {
            bytes: self.bytes@,
            probe_id: self.probe_id,
            attempts: self.attempts,
            next_try: self.next_try,
        }
    }
}

/// A new address of a common friend that we were asked to hand on.
pub struct PendingPush {
    pub source: [u8; 32],
    pub ips: Vec<String>,
    pub attempts: u8,
    pub next_try: u64,
}

/// The contents of a [`PendingPush`].
#[verifier::ext_equal]
pub struct PushView {
    pub source: Seq<u8>,
    pub ips: Seq<Seq<char>>,
    pub attempts: u8,
    pub next_try: u64,
}

impl View for PendingPush {
    type V = PushView;

    open spec fn view(&self) -> PushView {
        PushView {
            source: self.source@,
            ips: texts(self.ips@),
            attempts: self.attempts,
            next_try: self.next_try,
        }
    }
}

impl Clone for PendingPush {
    fn clone(&self) -> (r: Self)
        ensures
            r@ == self@,
    {
        PendingPush {
            source: self.source,
            ips: clone_texts(&self.ips),
            attempts: self.attempts,
            next_try: self.next_try,
        }
    }
}

/// The addresses to be handed on to one friend.
pub struct PushList {
    pub items: Vec<PendingPush>,
}

/// The contents of a list of pushes.
pub open spec fn push_views(v: Seq<PendingPush>) -> Seq<PushView> {
    Seq::new(v.len(), |i: int| v[i]@)
}

impl View for PushList {
    type V = Seq<PushView>;

    open spec fn view(&self) -> Seq<PushView> {
        push_views(self.items@)
    }
}

/// Our newest address announcement, kept for a friend that did not confirm
/// it.
pub struct PendingAnnounce {
    pub bytes: Vec<u8>,
    pub probe_id: u64,
}

/// The contents of a [`PendingAnnounce`].
#[verifier::ext_equal]
pub struct AnnounceView {
    pub bytes: Seq<u8>,
    pub probe_id: u64,
}

impl View for PendingAnnounce {
    type V = AnnounceView;

    open spec fn view(&self) -> AnnounceView {
        AnnounceView { bytes: self.bytes@, probe_id: self.probe_id }
    }
}

// ---------- the node ----------

/// The sequence numbers of chunks begin above this one, those of text
/// messages at zero.
pub const ATTACH_SEQ_BASE: u32 = 0x8000_0000;

pub struct Network {
    pub identity: Identity,
    /// Whether the socket is an IPv6 dual-stack one.
    pub use_v6: bool,
    /// The port that we listen on.
    pub port: u16,
    /// A public IPv4 address that does not change. With it no change of the
    /// local address is looked for, and only it is announced.
    pub stable_ipv4: Option<String>,
    pub sessions: SessionTable,
    pub retx: Retransmitter,
    /// Address queries, by nonce.
    pub addr_queries: Table<[u8; 16], PendingQuery>,
    /// Packets that could not be delivered, by recipient and number.
    pub failed_sends: Table<([u8; 32], u32), Vec<u8>>,
    /// The local IPv6 address when it was last looked at.
    pub last_local_ipv6: Option<String>,
    pub next_local_ip_check: u64,
    /// Unconfirmed probes, by friend.
    pub ip_probes: Table<[u8; 32], PendingProbe>,
    /// Addresses to be handed on, by friend.
    pub pending_pushes: Table<[u8; 32], PushList>,
    /// Unconfirmed announcements, by friend.
    pub pending_announce: Table<[u8; 32], PendingAnnounce>,
    /// Attachments being sent, by transfer.
    pub attach_sends: Table<[u8; 16], AttachSend>,
    /// Attachments coming in, by transfer.
    pub attach_recvs: Table<[u8; 16], AttachRecv>,
    /// Chunks on their way, by sequence number.
    pub chunk_seqs: Table<u32, ChunkRef>,
    /// The sequence number given to a chunk last.
    pub attach_seq: u32,
}

/// Who a node is.
#[verifier::ext_equal]
pub struct Me {
    pub seed: Seq<u8>,
    pub ed_pub: Seq<u8>,
    pub x25519_sk: Seq<u8>,
}

/// The contents of a [`Network`].
#[verifier::ext_equal]
pub struct NetState {
    pub me: Me,
    pub use_v6: bool,
    pub port: u16,
    pub stable_ipv4: Option<Seq<char>>,
    pub sessions: Sessions,
    pub retx: Waiting,
    pub addr_queries: Seq<(Seq<u8>, QueryView)>,
    pub failed_sends: Seq<((Seq<u8>, u32), Seq<u8>)>,
    pub last_local_ipv6: Option<Seq<char>>,
    pub next_local_ip_check: u64,
    pub ip_probes: Seq<(Seq<u8>, ProbeView)>,
    pub pending_pushes: Seq<(Seq<u8>, Seq<PushView>)>,
    pub pending_announce: Seq<(Seq<u8>, AnnounceView)>,
    pub attach_sends: Seq<(Seq<u8>, AttachSendView)>,
    pub attach_recvs: Seq<(Seq<u8>, AttachRecvView)>,
    pub chunk_seqs: Seq<(u32, ChunkRefView)>,
    pub attach_seq: u32,
}

/// Who an identity is.
pub open spec fn me_of(i: Identity) -> Me {
    Me { seed: i.seed@, ed_pub: i.ed_pub@, x25519_sk: i.x25519_sk@ }
}

impl View for Network {
    type V = NetState;

    open spec fn view(&self) -> NetState {
        NetState {
            me: me_of(self.identity),
            use_v6: self.use_v6,
            port: self.port,
            stable_ipv4: opt_text(self.stable_ipv4),
            sessions: self.sessions@,
            retx: self.retx@,
            addr_queries: self.addr_queries@,
            failed_sends: self.failed_sends@,
            last_local_ipv6: opt_text(self.last_local_ipv6),
            next_local_ip_check: self.next_local_ip_check,
            ip_probes: self.ip_probes@,
            pending_pushes: self.pending_pushes@,
            pending_announce: self.pending_announce@,
            attach_sends: self.attach_sends@,
            attach_recvs: self.attach_recvs@,
            chunk_seqs: self.chunk_seqs@,
            attach_seq: self.attach_seq,
        }
    }
}

/// A node together with its friend list and the outputs so far.
#[verifier::ext_equal]
pub struct World {
    pub net: NetState,
    pub book: Seq<FriendView>,
    pub unsaved: bool,
    pub out: Seq<OutView>,
}

/// The world of a node, a friend list and a list of outputs.
pub open spec fn world(n: Network, f: FriendStore, out: Seq<Output>) -> World {
    World { net: n@, book: f@, unsaved: f.unsaved, out: outs(out) }
}

/// Why a step was not carried out.
#[derive(Clone, Copy, Debug, PartialEq, Eq, Structural)]
pub enum NetError {
    Packet(PacketError),
    /// The packet is for someone else.
    NotForUs,
    /// The sender is no friend.
    UnknownSender,
    /// The peer's ID has no encryption key.
    NoKey,
    /// The payload is no envelope.
    Envelope,
    Cipher(CipherError),
    Proto(ProtoError),
    UnknownMessage,
    MessageTooLong,
    NotFriend,
}

// ---------- elementary steps ----------

/// The world after an event.
pub open spec fn emitted(w: World, e: EventView) -> World {
    World { out: w.out.push(OutView::Event(e)), ..w }
}

/// The address that a datagram for `to` is sent to.
pub open spec fn route(use_v6: bool, to: AddrView) -> AddrView {
    if use_v6 {
        send_form(to)
    } else {
        to
    }
}

/// The world after a datagram.
pub open spec fn sent_to(w: World, to: AddrView, bytes: Seq<u8>) -> World {
    World { out: w.out.push(OutView::Send { to: route(w.net.use_v6, to), bytes }), ..w }
}

/// The addresses that texts stand for; others are left out.
pub open spec fn parsed_list(ips: Seq<Seq<char>>) -> Seq<AddrView>
    decreases ips.len(),
{
    if ips.len() == 0 {
        Seq::empty()
    } else {
        let front = parsed_list(ips.drop_last());
        match parsed_addr(ips.last(), DEFAULT_PORT) {
            Some(a) => front.push(a),
            None => front,
        }
    }
}

/// The addresses of one family.
pub open spec fn family_addrs(v: Seq<AddrView>, v6: bool) -> Seq<AddrView>
    decreases v.len(),
{
    if v.len() == 0 {
        Seq::empty()
    } else {
        let front = family_addrs(v.drop_last(), v6);
        if (v.last() is V6) == v6 {
            front.push(v.last())
        } else {
            front
        }
    }
}

/// The addresses of a friend, IPv6 first; none of someone else.
pub open spec fn peer_addrs(book: Seq<FriendView>, id: Seq<u8>) -> Seq<AddrView> {
    match friend_of(book, id) {
        Some(f) => {
            let all = parsed_list(f.ips);
            family_addrs(all, true) + family_addrs(all, false)
        },
        None => Seq::empty(),
    }
}

/// One datagram to each address.
pub open spec fn sends(use_v6: bool, addrs: Seq<AddrView>, bytes: Seq<u8>) -> Seq<OutView> {
    Seq::new(addrs.len(), |i: int| OutView::Send { to: route(use_v6, addrs[i]), bytes })
}

/// The world after a datagram to every address of a peer.
pub open spec fn sent_to_peer(w: World, id: Seq<u8>, bytes: Seq<u8>) -> World {
    World { out: w.out + sends(w.net.use_v6, peer_addrs(w.book, id), bytes), ..w }
}

/// A packet on its first transmission.
pub open spec fn fresh_pending(
    bytes: Seq<u8>,
    recipient: Seq<u8>,
    seq: u32,
    now: u64,
) -> PendingView {
    PendingView { bytes, recipient, seq, attempts: 0, next_retry: after(now, RETRY_INTERVAL) }
}

/// The world after a packet to a peer that waits for its acknowledgement.
pub open spec fn dispatched(
    w: World,
    recipient: Seq<u8>,
    seq: u32,
    bytes: Seq<u8>,
    now: u64,
) -> World {
    let s = sent_to_peer(w, recipient, bytes);
    World {
        net: NetState {
            retx: put(s.net.retx, (recipient, seq), fresh_pending(bytes, recipient, seq, now)),
            ..s.net
        },
        ..s
    }
}

/// A well-formed signed packet whose payload is `inner` sealed for the
/// recipient.
#[verifier::opaque]
pub open spec fn is_sealed_packet(
    me: Me,
    ptype: PktType,
    flags: u8,
    seq: u32,
    recipient: Seq<u8>,
    inner: Seq<u8>,
    bytes: Seq<u8>,
) -> bool {
    &&& primitives::edwards_to_montgomery(recipient) is Some
    &&& exists|sealed: SealedView| #[trigger]
        cipher::is_sealed(
            sealed,
            me.x25519_sk,
            primitives::edwards_to_montgomery(recipient)->0,
            me.ed_pub,
            recipient,
            inner,
        ) && bytes == signed_bytes(
            PacketView {
                ptype,
                flags,
                seq,
                sender_id: me.ed_pub,
                recipient_id: recipient,
                payload: envelope(sealed),
            },
            me.seed,
        ) && bytes.len() == HEADER_LEN + envelope(sealed).len() + SIG_LEN
}

/// Whether a plaintext of some length can be sealed for a recipient.
pub open spec fn can_seal(recipient: Seq<u8>, len: nat) -> bool {
    primitives::edwards_to_montgomery(recipient) is Some && primitives::gcm_fits(len)
}

/// A signed packet that is not encrypted.
pub open spec fn plain_packet(
    me: Me,
    ptype: PktType,
    recipient: Seq<u8>,
    payload: Seq<u8>,
) -> Seq<u8> {
    signed_bytes(
        PacketView { ptype, flags: 0, seq: 0, sender_id: me.ed_pub, recipient_id: recipient, payload },
        me.seed,
    )
}

/// What is in the envelope of a packet for us.
pub open spec fn payload_plain(me: Me, p: PacketView) -> Result<Seq<u8>, NetError> {
    match primitives::edwards_to_montgomery(p.sender_id) {
        None => Err(NetError::NoKey),
        Some(x) => match envelope_of(p.payload) {
            None => Err(NetError::Envelope),
            Some(s) => match cipher::opened(s, me.x25519_sk, x, p.sender_id, me.ed_pub) {
                None => Err(NetError::Cipher(CipherError::Decrypt)),
                Some(plain) => Ok(plain),
            },
        },
    }
}

/// A peer whose keys all come from its seed.
pub open spec fn honest(peer: Me) -> bool {
    &&& peer.seed.len() == 32
    &&& peer.ed_pub.len() == 32
    &&& peer.x25519_sk.len() == 32
    &&& peer.ed_pub == primitives::ed25519_public(peer.seed)
    &&& peer.x25519_sk == primitives::ed25519_scalar(peer.seed)
}

/// Whether a packet is read as what an honest peer sealed into it for us.
pub open spec fn reads_honest(me: Me, p: PacketView) -> bool {
    forall|peer: Me, sealed: SealedView, inner: Seq<u8>|
        honest(peer) && p.sender_id == peer.ed_pub && p.payload == envelope(sealed)
            && #[trigger] cipher::is_sealed(
            sealed,
            peer.x25519_sk,
            primitives::x25519_public(me.x25519_sk),
            peer.ed_pub,
            me.ed_pub,
            inner,
        ) ==> payload_plain(me, p) == Ok::<Seq<u8>, NetError>(inner)
}

/// The failed packets of one recipient, sent again.
pub open spec fn resent(
    w: World,
    failed: Seq<((Seq<u8>, u32), Seq<u8>)>,
    who: Seq<u8>,
    now: u64,
) -> World
    decreases failed.len(),
{
    if failed.len() == 0 {
        w
    } else {
        let front = resent(w, failed.drop_last(), who, now);
        let (key, bytes) = failed.last();
        if key.0 == who {
            dispatched(front, who, key.1, bytes, now)
        } else {
            front
        }
    }
}

/// The failed packets of everyone else.
pub open spec fn failed_of_others(
    failed: Seq<((Seq<u8>, u32), Seq<u8>)>,
    who: Seq<u8>,
) -> Seq<((Seq<u8>, u32), Seq<u8>)>
    decreases failed.len(),
{
    if failed.len() == 0 {
        failed
    } else {
        let front = failed_of_others(failed.drop_last(), who);
        if failed.last().0.0 == who {
            front
        } else {
            front.push(failed.last())
        }
    }
}

/// The world after the failed packets of a recipient were sent again, which
/// needs a known address.
pub open spec fn retried_failed(w: World, who: Seq<u8>, now: u64) -> World {
    if peer_addrs(w.book, who).len() == 0 {
        w
    } else {
        let r = resent(w, w.net.failed_sends, who, now);
        World {
            net: NetState {
                failed_sends: failed_of_others(w.net.failed_sends, who),
                ..r.net
            },
            ..r
        }
    }
}

/// The world after traffic of a friend from an address.
pub open spec fn noted_seen(w: World, who: Seq<u8>, ip: Seq<char>, now: Moment) -> World {
    let book = book_seen(w.book, who, Some(ip), now.unix);
    if book == w.book {
        w
    } else {
        retried_failed(
            emitted(World { book, unsaved: true, ..w }, EventView::FriendSeen { peer: who }),
            who,
            now.tick,
        )
    }
}

impl Network {
    /// A new node.
    pub fn new(
        identity: Identity,
        use_v6: bool,
        port: u16,
        stable_ipv4: Option<String>,
        last_local_ipv6: Option<String>,
        next_local_ip_check: u64,
    ) -> (r: Self)
        ensures
            r@ == (NetState {
                me: me_of(identity),
                use_v6,
                port,
                stable_ipv4: opt_text(stable_ipv4),
                sessions: Seq::empty(),
                retx: Seq::empty(),
                addr_queries: Seq::empty(),
                failed_sends: Seq::empty(),
                last_local_ipv6: opt_text(last_local_ipv6),
                next_local_ip_check,
                ip_probes: Seq::empty(),
                pending_pushes: Seq::empty(),
                pending_announce: Seq::empty(),
                attach_sends: Seq::empty(),
                attach_recvs: Seq::empty(),
                chunk_seqs: Seq::empty(),
                attach_seq: ATTACH_SEQ_BASE,
            }),
            r.identity == identity,
    {
        Network {
            identity,
            use_v6,
            port,
            stable_ipv4,
            sessions: SessionTable::default(),
            retx: Retransmitter::default(),
            addr_queries: Table::new(),
            failed_sends: Table::new(),
            last_local_ipv6,
            next_local_ip_check,
            ip_probes: Table::new(),
            pending_pushes: Table::new(),
            pending_announce: Table::new(),
            attach_sends: Table::new(),
            attach_recvs: Table::new(),
            chunk_seqs: Table::new(),
            attach_seq: ATTACH_SEQ_BASE,
        }
    }

    /// Sends a datagram.
    pub fn send_to_addr(&self, bytes: &[u8], addr: SocketAddr, out: &mut Vec<Output>)
        ensures
            outs(final(out)@) == outs(old(out)@).push(
                OutView::Send { to: route(self.use_v6, addr@), bytes: bytes@ },
            ),
    {
        let to = if self.use_v6 {
            to_send_addr(addr)
        } else {
            addr
        };
        push_output(out, Output::Send { to, bytes: copy_of(bytes) });
    }

    /// The addresses of a friend, IPv6 first.
    pub fn peer_addrs(&self, friends: &FriendStore, id: &[u8; 32]) -> (r: Vec<SocketAddr>)
        ensures
            addr_views(r@) == peer_addrs(friends@, id@),
    {
        match friends.get(id) {
            Some(f) => {
                let all = parse_list(&f.ips);
                let mut r = family_of(&all, true);
                let mut rest = family_of(&all, false);
                let ghost v6 = addr_views(r@);
                let ghost v4 = addr_views(rest@);
                r.append(&mut rest);
                assert(addr_views(r@) =~= v6 + v4);
                r
            },
            None => {
                let r: Vec<SocketAddr> = Vec::new();
                assert(addr_views(r@) =~= Seq::<AddrView>::empty());
                r
            },
        }
    }

    /// Sends a datagram to each of the given addresses.
    pub fn send_to_all(&self, bytes: &[u8], addrs: &[SocketAddr], out: &mut Vec<Output>)
        ensures
            outs(final(out)@) == outs(old(out)@) + sends(self.use_v6, addr_views(addrs@), bytes@),
    {
        let ghost before = outs(out@);
        let ghost all = addr_views(addrs@);
        let mut i: usize = 0;
        assert(outs(out@) =~= before + sends(self.use_v6, all.take(0), bytes@));
        while i < addrs.len()
            invariant
                i <= addrs@.len(),
                all == addr_views(addrs@),
                outs(out@) == before + sends(self.use_v6, all.take(i as int), bytes@),
            decreases addrs@.len() - i,
        {
            self.send_to_addr(bytes, addrs[i], out);
            i = i + 1;
            assert(outs(out@) =~= before + sends(self.use_v6, all.take(i as int), bytes@));
        }
        assert(all.take(i as int) =~= all);
    }

    /// Sends a datagram to every address of a friend.
    pub fn send_to_peer(
        &self,
        friends: &FriendStore,
        bytes: &[u8],
        recipient: &[u8; 32],
        out: &mut Vec<Output>,
    )
        ensures
            world(*self, *friends, final(out)@) == sent_to_peer(
                world(*self, *friends, old(out)@),
                recipient@,
                bytes@,
            ),
    {
        let addrs = self.peer_addrs(friends, recipient);
        self.send_to_all(bytes, &addrs, out);
    }

    /// A signed packet with a sealed payload.
    pub fn seal_packet(
        &self,
        ptype: PktType,
        flags: u8,
        seq: u32,
        recipient: &[u8; 32],
        recip_xpub: &[u8; 32],
        inner: &[u8],
    ) -> (r: Result<Vec<u8>, NetError>)
        requires
            primitives::edwards_to_montgomery(recipient@) == Some(recip_xpub@),
        ensures
            r is Ok <==> primitives::gcm_fits(inner@.len()),
            r matches Ok(b) ==> is_sealed_packet(
                self@.me,
                ptype,
                flags,
                seq,
                recipient@,
                inner@,
                b@,
            ),
            r matches Err(e) ==> e == NetError::Cipher(CipherError::Encrypt),
    {
        reveal(is_sealed_packet);
        let sealed = match cipher::seal(
            &self.identity.x25519_sk,
            recip_xpub,
            &self.identity.ed_pub,
            recipient,
            inner,
        ) {
            Ok(s) => s,
            Err(e) => {
                return Err(NetError::Cipher(e));
            },
        };
        let payload = envelope_close(&sealed);
        let pkt = Packet {
            ptype,
            flags,
            seq,
            sender_id: self.identity.ed_pub,
            recipient_id: *recipient,
            payload,
        };
        let bytes = pkt.encode(&self.identity.seed);
        proof {
            lemma_unsigned_len(pkt@);
            assert(pkt@.payload == envelope(sealed@));
            assert(cipher::is_sealed(
                sealed@,
                self@.me.x25519_sk,
                primitives::edwards_to_montgomery(recipient@)->0,
                self@.me.ed_pub,
                recipient@,
                inner@,
            ));
        }
        Ok(bytes)
    }

    /// A signed packet that is not encrypted.
    pub fn build_simple(&self, ptype: PktType, recipient: &[u8; 32], payload: Vec<u8>) -> (r: Vec<
        u8,
    >)
        ensures
            r@ == plain_packet(self@.me, ptype, recipient@, payload@),
    {
        let pkt = Packet {
            ptype,
            flags: 0,
            seq: 0,
            sender_id: self.identity.ed_pub,
            recipient_id: *recipient,
            payload,
        };
        pkt.encode(&self.identity.seed)
    }

    /// Opens the envelope of a packet for us. What an honest peer sealed for
    /// us is read.
    pub fn open_payload(&self, p: &Packet) -> (r: Result<Vec<u8>, NetError>)
        ensures
            match payload_plain(self@.me, p@) {
                Ok(b) => r matches Ok(x) && x@ == b,
                Err(e) => r matches Err(x) && x == e,
            },
            self.identity.wf() ==> reads_honest(self@.me, p@),
    {
        let x = match cipher::ed_pub_to_x25519(&p.sender_id) {
            Some(x) => x,
            None => {
                return Err(NetError::NoKey);
            },
        };
        let sealed = match envelope_open(&p.payload) {
            Ok(s) => s,
            Err(_) => {
                proof {
                    assert forall|s: SealedView| #![trigger envelope(s)]
                        p@.payload == envelope(s) && s.eph_pub.len() == 32 && s.nonce.len() == 12
                            && s.ciphertext.len() >= primitives::GCM_TAG_LEN implies false by {
                        law_envelope_round_trip(s);
                    }
                }
                return Err(NetError::Envelope);
            },
        };
        proof {
            assert forall|s: SealedView| #![trigger envelope(s)]
                p@.payload == envelope(s) && s.eph_pub.len() == 32 && s.nonce.len() == 12
                    && s.ciphertext.len() >= primitives::GCM_TAG_LEN implies s == sealed@ by {
                law_envelope_round_trip(s);
            }
        }
        match cipher::open(
            &sealed,
            &self.identity.x25519_sk,
            &x,
            &p.sender_id,
            &self.identity.ed_pub,
        ) {
            Ok(plain) => Ok(plain),
            Err(e) => Err(NetError::Cipher(e)),
        }
    }

    /// Sends the failed packets of a recipient again, once an address of it
    /// is known.
    pub fn retry_failed_for(
        &mut self,
        friends: &FriendStore,
        recipient: &[u8; 32],
        now: u64,
        out: &mut Vec<Output>,
    )
        ensures
            world(*final(self), *friends, final(out)@) == retried_failed(
                world(*old(self), *friends, old(out)@),
                recipient@,
                now,
            ),
            final(self).identity == old(self).identity,
    {
        let addrs = self.peer_addrs(friends, recipient);
        if addrs.len() == 0 {
            return;
        }
        let ghost w = world(*self, *friends, out@);
        let ghost failed = self.failed_sends@;
        let mut kept: Table<([u8; 32], u32), Vec<u8>> = Table::new();
        let mut i: usize = 0;
        assert(failed.take(0) =~= Seq::<((Seq<u8>, u32), Seq<u8>)>::empty());
        while i < self.failed_sends.entries.len()
            invariant
                i <= failed.len(),
                failed == self.failed_sends@,
                failed == w.net.failed_sends,
                w.book == friends@,
                addr_views(addrs@) == peer_addrs(friends@, recipient@),
                world(*self, *friends, out@) == resent(w, failed.take(i as int), recipient@, now),
                kept@ == failed_of_others(failed.take(i as int), recipient@),
                self.identity == old(self).identity,
            decreases failed.len() - i,
        {
            let ghost cur = world(*self, *friends, out@);
            assert(failed.take(i + 1).drop_last() =~= failed.take(i as int));
            let key = (self.failed_sends.entries[i].0.0, self.failed_sends.entries[i].0.1);
            let bytes = copy_of(&self.failed_sends.entries[i].1);
            assert(failed[i as int] == (key@, bytes@));
            if same_array(&key.0, recipient) {
                self.send_to_all(&bytes, &addrs, out);
                self.retx.insert(
                    PendingPacket {
                        bytes,
                        recipient: key.0,
                        seq: key.1,
                        attempts: 0,
                        next_retry: time_after(now, RETRY_INTERVAL),
                    },
                );
                assert(cur.book == w.book && cur.net.use_v6 == self.use_v6);
                assert(world(*self, *friends, out@) =~= dispatched(
                    cur,
                    recipient@,
                    key.1,
                    failed[i as int].1,
                    now,
                ));
            } else {
                kept.entries.push((key, bytes));
                assert(kept@ =~= failed_of_others(failed.take(i as int), recipient@).push(
                    failed[i as int],
                ));
            }
            i = i + 1;
        }
        assert(failed.take(i as int) =~= failed);
        self.failed_sends = kept;
        assert(world(*self, *friends, out@) =~= retried_failed(w, recipient@, now));
    }

    /// Whether the user with a public key is a friend.
    pub fn is_friend(&self, friends: &FriendStore, id: &[u8; 32]) -> (r: bool)
        ensures
            r == has_friend(friends@, id@),
    {
        friends.contains(id)
    }

    /// Records traffic of a friend; where that is news, failed packets are
    /// sent again.
    pub fn note_friend_seen(
        &mut self,
        friends: &mut FriendStore,
        id: &[u8; 32],
        ip: &str,
        now: Moment,
        out: &mut Vec<Output>,
    )
        ensures
            world(*final(self), *final(friends), final(out)@) == noted_seen(
                world(*old(self), *old(friends), old(out)@),
                id@,
                ip@,
                now,
            ),
            final(self).identity == old(self).identity,
    {
        let ghost w = world(*self, *friends, out@);
        if friends.update_last_seen_and_ip_at(id, Some(ip), now.unix) {
            push_output(out, Output::Event(NetEvent::FriendSeen { id: *id }));
            assert(world(*self, *friends, out@) =~= emitted(
                World { book: friends@, unsaved: true, ..w },
                EventView::FriendSeen { peer: id@ },
            ));
            self.retry_failed_for(friends, id, now.tick, out);
        }
    }
}

/// The contents of a list of addresses.
pub open spec fn addr_views(v: Seq<SocketAddr>) -> Seq<AddrView> {
    Seq::new(v.len(), |i: int| v[i]@)
}

fn parse_list(ips: &[String]) -> (r: Vec<SocketAddr>)
    ensures
        addr_views(r@) == parsed_list(texts(ips@)),
{
    let ghost t = texts(ips@);
    let mut r: Vec<SocketAddr> = Vec::new();
    let mut i: usize = 0;
    assert(addr_views(r@) =~= parsed_list(t.take(0)));
    while i < ips.len()
        invariant
            i <= ips@.len(),
            t == texts(ips@),
            addr_views(r@) == parsed_list(t.take(i as int)),
        decreases ips@.len() - i,
    {
        let ghost before = addr_views(r@);
        match parse_sockaddr(&ips[i], DEFAULT_PORT) {
            Ok(a) => {
                r.push(a);
                assert(addr_views(r@) =~= before.push(a@));
            },
            Err(_) => {},
        }
        i = i + 1;
        assert(t.take(i as int).drop_last() =~= t.take(i - 1));
    }
    assert(t.take(i as int) =~= t);
    r
}

fn family_of(v: &[SocketAddr], v6: bool) -> (r: Vec<SocketAddr>)
    ensures
        addr_views(r@) == family_addrs(addr_views(v@), v6),
{
    let ghost t = addr_views(v@);
    let mut r: Vec<SocketAddr> = Vec::new();
    let mut i: usize = 0;
    assert(addr_views(r@) =~= family_addrs(t.take(0), v6));
    while i < v.len()
        invariant
            i <= v@.len(),
            t == addr_views(v@),
            addr_views(r@) == family_addrs(t.take(i as int), v6),
        decreases v@.len() - i,
    {
        let ghost before = addr_views(r@);
        let a = v[i];
        if a.is_ipv6() == v6 {
            r.push(a);
            assert(addr_views(r@) =~= before.push(a@));
        }
        i = i + 1;
        assert(t.take(i as int).drop_last() =~= t.take(i - 1));
    }
    assert(t.take(i as int) =~= t);
    r
}

} // verus!
