//! What goes in and out of the network layer.

use vstd::prelude::*;

use crate::bytes::copy_of;
use crate::net::ip::{AddrView, SocketAddr};

verus! {

/// A command of the user interface.
pub enum NetCommand {
    Send { recipient: [u8; 32], content: String, seq: u32 },
    SendAttach {
        recipient: [u8; 32],
        kind: u8,
        name: String,
        data: Vec<u8>,
        ts: u64,
        transfer: [u8; 16],
    },
    FindAddress { recipient: [u8; 32] },
    Quit,
}

/// The contents of a [`NetCommand`].
#[verifier::ext_equal]
pub enum CommandView {
    Send { recipient: Seq<u8>, content: Seq<char>, seq: u32 },
    SendAttach {
        recipient: Seq<u8>,
        kind: u8,
        name: Seq<char>,
        data: Seq<u8>,
        ts: u64,
        transfer: Seq<u8>,
    },
    FindAddress { recipient: Seq<u8> },
    Quit,
}

impl View for NetCommand {
    type V = CommandView;

    open spec fn view(&self) -> CommandView {
        match self {
            NetCommand::Send { recipient, content, seq } => CommandView::Send {
                recipient: recipient@,
                content: content@,
                seq: *seq,
            },
            NetCommand::SendAttach { recipient, kind, name, data, ts, transfer } => {
                CommandView::SendAttach {
                    recipient: recipient@,
                    kind: *kind,
                    name: name@,
                    data: data@,
                    ts: *ts,
                    transfer: transfer@,
                }
            },
            NetCommand::FindAddress { recipient } => CommandView::FindAddress {
                recipient: recipient@,
            },
            NetCommand::Quit => CommandView::Quit,
        }
    }
}

/// An event for the user interface.
#[derive(Debug)]
pub enum NetEvent {
    MessageReceived { from: [u8; 32], content: String, seq: u32, ts: u64 },
    MessageAcked { to: [u8; 32], seq: u32 },
    MessageFailed { to: [u8; 32], seq: u32 },
    AttachReceived { from: [u8; 32], kind: u8, name: String, data: Vec<u8>, ts: u64 },
    AttachAcked { to: [u8; 32], transfer: [u8; 16] },
    AttachFailed { to: [u8; 32], transfer: [u8; 16] },
    AddrResult { target: [u8; 32], found: bool, count: usize },
    FriendSeen { id: [u8; 32] },
    Status(String),
}

/// The contents of a [`NetEvent`].
#[verifier::ext_equal]
pub enum EventView {
    MessageReceived { peer: Seq<u8>, content: Seq<char>, seq: u32, ts: u64 },
    MessageAcked { peer: Seq<u8>, seq: u32 },
    MessageFailed { peer: Seq<u8>, seq: u32 },
    AttachReceived { peer: Seq<u8>, kind: u8, name: Seq<char>, data: Seq<u8>, ts: u64 },
    AttachAcked { peer: Seq<u8>, transfer: Seq<u8> },
    AttachFailed { peer: Seq<u8>, transfer: Seq<u8> },
    AddrResult { peer: Seq<u8>, found: bool, count: nat },
    FriendSeen { peer: Seq<u8> },
    Status(Seq<char>),
}

impl View for NetEvent {
    type V = EventView;

    open spec fn view(&self) -> EventView {
        match self {
            NetEvent::MessageReceived { from, content, seq, ts } => EventView::MessageReceived {
                peer: from@,
                content: content@,
                seq: *seq,
                ts: *ts,
            },
            NetEvent::MessageAcked { to, seq } => EventView::MessageAcked {
                peer: to@,
                seq: *seq,
            },
            NetEvent::MessageFailed { to, seq } => EventView::MessageFailed {
                peer: to@,
                seq: *seq,
            },
            NetEvent::AttachReceived { from, kind, name, data, ts } => EventView::AttachReceived {
                peer: from@,
                kind: *kind,
                name: name@,
                data: data@,
                ts: *ts,
            },
            NetEvent::AttachAcked { to, transfer } => EventView::AttachAcked {
                peer: to@,
                transfer: transfer@,
            },
            NetEvent::AttachFailed { to, transfer } => EventView::AttachFailed {
                peer: to@,
                transfer: transfer@,
            },
            NetEvent::AddrResult { target, found, count } => EventView::AddrResult {
                peer: target@,
                found: *found,
                count: *count as nat,
            },
            NetEvent::FriendSeen { id } => EventView::FriendSeen { peer: id@ },
            NetEvent::Status(s) => EventView::Status(s@),
        }
    }
}

impl Clone for NetEvent {
    fn clone(&self) -> (r: Self)
        ensures
            r@ == self@,
    {
        match self {
            NetEvent::MessageReceived { from, content, seq, ts } => NetEvent::MessageReceived {
                from: *from,
                content: content.clone(),
                seq: *seq,
                ts: *ts,
            },
            NetEvent::MessageAcked { to, seq } => NetEvent::MessageAcked { to: *to, seq: *seq },
            NetEvent::MessageFailed { to, seq } => NetEvent::MessageFailed { to: *to, seq: *seq },
            NetEvent::AttachReceived { from, kind, name, data, ts } => NetEvent::AttachReceived {
                from: *from,
                kind: *kind,
                name: name.clone(),
                data: copy_of(data),
                ts: *ts,
            },
            NetEvent::AttachAcked { to, transfer } => NetEvent::AttachAcked {
                to: *to,
                transfer: *transfer,
            },
            NetEvent::AttachFailed { to, transfer } => NetEvent::AttachFailed {
                to: *to,
                transfer: *transfer,
            },
            NetEvent::AddrResult { target, found, count } => NetEvent::AddrResult {
                target: *target,
                found: *found,
                count: *count,
            },
            NetEvent::FriendSeen { id } => NetEvent::FriendSeen { id: *id },
            NetEvent::Status(s) => NetEvent::Status(s.clone()),
        }
    }
}

/// What the network layer asks to be done: a datagram to be sent, or an event
/// to be handed on.
pub enum Output {
    Send { to: SocketAddr, bytes: Vec<u8> },
    Event(NetEvent),
}

/// The contents of an [`Output`].
#[verifier::ext_equal]
pub enum OutView {
    Send { to: AddrView, bytes: Seq<u8> },
    Event(EventView),
}

impl View for Output {
    type V = OutView;

    open spec fn view(&self) -> OutView {
        match self {
            Output::Send { to, bytes } => OutView::Send { to: to@, bytes: bytes@ },
            Output::Event(e) => OutView::Event(e@),
        }
    }
}

/// The contents of a list of outputs.
pub open spec fn outs(v: Seq<Output>) -> Seq<OutView> {
    Seq::new(v.len(), |i: int| v[i]@)
}

/// Appends one output.
pub fn push_output(out: &mut Vec<Output>, o: Output)
    ensures
        outs(final(out)@) == outs(old(out)@).push(o@),
{
    let ghost before = outs(out@);
    let ghost ov = o@;
    out.push(o);
    assert(outs(out@) =~= before.push(ov));
}

/// The time of an event: milliseconds of a clock that only goes forward, and
/// Unix milliseconds.
#[derive(Clone, Copy, Debug, PartialEq, Eq, Structural)]
pub struct Moment {
    pub tick: u64,
    pub unix: u64,
}

} // verus!
