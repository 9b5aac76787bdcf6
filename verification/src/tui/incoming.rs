//! What the events of the network layer do to the state.

use vstd::prelude::*;

use crate::bytes::same_array;
use crate::crypto::id::{self, hex_text, show_id, shown_id};
use crate::net::event::{CommandView, EventView, NetCommand, NetEvent};
use crate::store::friends::{find_friend, friend_views, lemma_find_friend, Friend, FriendView};
use crate::table::{law_table, lemma_key_index, lookup, put, Table};
use crate::text::{decimal, push_decimal, same_text};
use crate::tui::app::{
    acting, add_msg, attach_kind, kind_of_attach, msg_views, msgs_of, next_number, shown, with_msg,
    Action, ActionView, App, AppView, Dir, KindView, MsgKind, MsgList, MsgStatus, Talks, UiMsg,
    UiMsgView,
};
use crate::tui::sending::{text_msg, text_queued};
use crate::util::unix_millis;

verus! {

// ---------- friends ----------

/// The friends after someone was seen at a given time.
pub open spec fn friends_seen(fs: Seq<FriendView>, key: Seq<char>, ts: u64) -> Seq<FriendView> {
    let i = find_friend(fs, key);
    if i < fs.len() {
        fs.update(i, FriendView { last_seen: Some(ts), ..fs[i] })
    } else {
        fs
    }
}

fn see_friend(friends: &mut Vec<Friend>, key: &str, ts: u64)
    ensures
        friend_views(final(friends)@) == friends_seen(friend_views(old(friends)@), key@, ts),
{
    let ghost fs = friend_views(friends@);
    let mut i: usize = 0;
    while i < friends.len() && !same_text(&friends[i].pubkey, key)
        invariant
            i <= friends@.len(),
            fs == friend_views(friends@),
            forall|j: int| 0 <= j < i ==> (#[trigger] fs[j]).pubkey != key@,
        decreases friends@.len() - i,
    {
        i = i + 1;
    }
    proof {
        lemma_find_friend(fs, key@);
        if i < friends@.len() {
            assert(fs[i as int].pubkey == key@);
        }
        assert(find_friend(fs, key@) == i);
    }
    if i < friends.len() {
        let mut f = friends[i].clone();
        f.last_seen = Some(ts);
        let ghost fv = f@;
        friends[i] = f;
        assert(friend_views(friends@) =~= fs.update(i as int, fv));
        assert(fv =~= FriendView { last_seen: Some(ts), ..fs[i as int] });
    }
}

// ---------- the status of messages ----------

/// The messages with the status of the last one that was sent under a number
/// set.
pub open spec fn status_set(v: Seq<UiMsgView>, seq: u32, status: MsgStatus) -> Seq<UiMsgView>
    decreases v.len(),
{
    if v.len() == 0 {
        v
    } else if v.last().dir == Dir::Out && v.last().seq == seq {
        v.drop_last().push(UiMsgView { status, ..v.last() })
    } else {
        status_set(v.drop_last(), seq, status).push(v.last())
    }
}

/// The messages with the status of those of a transfer set.
pub open spec fn transfer_set(
    v: Seq<UiMsgView>,
    transfer: Seq<u8>,
    status: MsgStatus,
) -> Seq<UiMsgView> {
    Seq::new(
        v.len(),
        |i: int|
            if v[i].transfer == Some(transfer) {
                UiMsgView { status, ..v[i] }
            } else {
                v[i]
            },
    )
}

/// The conversations after the status of a message was set.
pub open spec fn talk_status(
    talks: Talks,
    key: Seq<char>,
    seq: u32,
    status: MsgStatus,
) -> Talks {
    match lookup(talks, key) {
        Some(v) => put(talks, key, status_set(v, seq, status)),
        None => talks,
    }
}

/// The conversations after the status of a transfer was set.
pub open spec fn talk_transfer(
    talks: Talks,
    key: Seq<char>,
    transfer: Seq<u8>,
    status: MsgStatus,
) -> Talks {
    match lookup(talks, key) {
        Some(v) => put(talks, key, transfer_set(v, transfer, status)),
        None => talks,
    }
}

proof fn lemma_status_tail(v: Seq<UiMsgView>, seq: u32, status: MsgStatus, i: int)
    requires
        0 <= i <= v.len(),
        forall|j: int|
            i <= j < v.len() ==> !((#[trigger] v[j]).dir == Dir::Out && v[j].seq == seq),
    ensures
        status_set(v, seq, status) == status_set(v.take(i), seq, status) + v.skip(i),
    decreases v.len() - i,
{
    if i < v.len() {
        let t = v.drop_last();
        assert forall|j: int| i <= j < t.len() implies !((#[trigger] t[j]).dir == Dir::Out
            && t[j].seq == seq) by {
            assert(t[j] == v[j]);
        }
        lemma_status_tail(t, seq, status, i);
        assert(t.take(i) =~= v.take(i));
        assert(!(v[v.len() - 1].dir == Dir::Out && v[v.len() - 1].seq == seq));
        assert(status_set(v, seq, status) =~= status_set(v.take(i), seq, status) + v.skip(i));
    } else {
        assert(v.take(i) =~= v);
        assert(status_set(v, seq, status) =~= status_set(v.take(i), seq, status) + v.skip(i));
    }
}

fn set_status(v: &mut Vec<UiMsg>, seq: u32, status: MsgStatus)
    ensures
        msg_views(final(v)@) == status_set(msg_views(old(v)@), seq, status),
{
    let ghost all = msg_views(v@);
    let mut i: usize = v.len();
    while i > 0
        invariant
            i <= v@.len(),
            all == msg_views(v@),
            v@ == old(v)@,
            forall|j: int|
                i <= j < all.len() ==> !((#[trigger] all[j]).dir == Dir::Out && all[j].seq == seq),
        decreases i,
    {
        assert(all[i - 1] == v@[i - 1]@);
        if v[i - 1].dir == Dir::Out && v[i - 1].seq == seq {
            let mut m = v[i - 1].clone();
            m.status = status;
            let ghost mv = m@;
            v[i - 1] = m;
            proof {
                lemma_status_tail(all, seq, status, i as int);
                let head = all.take(i as int);
                assert(head.last() == all[i - 1]);
                assert(mv =~= UiMsgView { status, ..all[i - 1] });
                assert(msg_views(v@) =~= all.update(i - 1, mv));
                assert(status_set(head, seq, status) == head.drop_last().push(mv));
                assert(msg_views(v@) =~= status_set(head, seq, status) + all.skip(i as int));
            }
            return;
        }
        i = i - 1;
    }
    proof {
        lemma_status_tail(all, seq, status, 0);
        assert(status_set(all.take(0), seq, status) + all.skip(0) =~= all);
    }
}

fn set_transfer(v: &mut Vec<UiMsg>, transfer: &[u8; 16], status: MsgStatus)
    ensures
        msg_views(final(v)@) == transfer_set(msg_views(old(v)@), transfer@, status),
{
    let ghost all = msg_views(v@);
    let ghost want = transfer_set(all, transfer@, status);
    let mut i: usize = 0;
    while i < v.len()
        invariant
            i <= v@.len(),
            v@.len() == all.len(),
            want == transfer_set(all, transfer@, status),
            forall|j: int| 0 <= j < i ==> (#[trigger] v@[j])@ == want[j],
            forall|j: int| i <= j < all.len() ==> (#[trigger] v@[j])@ == all[j],
        decreases v@.len() - i,
    {
        let hit = match &v[i].transfer {
            Some(t) => same_array(t, transfer),
            None => false,
        };
        assert(v@[i as int]@ == all[i as int]);
        assert(hit == (all[i as int].transfer == Some(transfer@)));
        if hit {
            let mut m = v[i].clone();
            m.status = status;
            assert(m@ =~= want[i as int]);
            v[i] = m;
        }
        assert(v@[i as int]@ == want[i as int]);
        i = i + 1;
    }
    assert(msg_views(v@) =~= want);
}

fn set_talk_status(msgs: &mut Table<String, MsgList>, key: &String, seq: u32, status: MsgStatus)
    ensures
        final(msgs)@ == talk_status(old(msgs)@, key@, seq, status),
{
    let ghost talks = msgs@;
    proof {
        lemma_key_index(talks, key@);
    }
    let i: usize = msgs.find(key);
    if i < msgs.len() {
        let list = msgs.value_mut(i);
        set_status(&mut list.items, seq, status);
        assert(msgs@ =~= talk_status(talks, key@, seq, status));
    }
}

fn set_talk_transfer(
    msgs: &mut Table<String, MsgList>,
    key: &String,
    transfer: &[u8; 16],
    status: MsgStatus,
)
    ensures
        final(msgs)@ == talk_transfer(old(msgs)@, key@, transfer@, status),
{
    let ghost talks = msgs@;
    proof {
        lemma_key_index(talks, key@);
    }
    let i: usize = msgs.find(key);
    if i < msgs.len() {
        let list = msgs.value_mut(i);
        set_transfer(&mut list.items, transfer, status);
        assert(msgs@ =~= talk_transfer(talks, key@, transfer@, status));
    }
}

// ---------- events ----------

/// The short user ID of someone.
pub open spec fn short_text(peer: Seq<u8>) -> Seq<char> {
    hex_text(peer).take(12)
}

/// The line of the message file for a message that came in.
pub open spec fn received_line(key: Seq<char>, text: Seq<char>) -> Seq<char> {
    "< "@ + shown_id(key) + ": "@ + text
}

/// The state after a text message came in.
pub open spec fn message_shown(
    s: AppView,
    peer: Seq<u8>,
    content: Seq<char>,
    seq: u32,
    ts: u64,
) -> AppView {
    let key = hex_text(peer);
    let m = UiMsgView {
        dir: Dir::In,
        text: content,
        status: MsgStatus::Sent,
        seq,
        ts,
        kind: KindView::Text,
        transfer: None,
    };
    shown(
        acting(
            AppView {
                msgs: with_msg(s.msgs, key, m),
                friends: friends_seen(s.friends, key, ts),
                ..s
            },
            ActionView::Log { ts, text: received_line(key, content) },
        ),
        "收到 "@ + short_text(peer) + ": "@ + content,
    )
}

/// The state after a message failed; with automatic addressing common friends
/// are asked at once.
pub open spec fn failure_shown(s: AppView, peer: Seq<u8>, seq: u32) -> AppView {
    let r = shown(
        AppView { msgs: talk_status(s.msgs, hex_text(peer), seq, MsgStatus::Failed), ..s },
        "消息到 "@ + short_text(peer) + " 发送失败（无响应）。Ctrl+F 查找新地址 / Ctrl+R 重发"@,
    );
    if s.auto_addr {
        acting(r, ActionView::Net(CommandView::FindAddress { recipient: peer }))
    } else {
        r
    }
}

/// The state after an attachment came in.
pub open spec fn attach_shown(
    s: AppView,
    peer: Seq<u8>,
    kind: u8,
    name: Seq<char>,
    data: Seq<u8>,
    ts: u64,
) -> AppView {
    let key = hex_text(peer);
    let m = UiMsgView {
        dir: Dir::In,
        text: Seq::empty(),
        status: MsgStatus::Sent,
        seq: 0,
        ts,
        kind: attach_kind(kind, name, data),
        transfer: None,
    };
    shown(
        AppView {
            msgs: with_msg(s.msgs, key, m),
            friends: friends_seen(s.friends, key, ts),
            ..s
        },
        "收到 "@ + short_text(peer) + " 的附件: "@ + name,
    )
}

/// What is shown after an address was looked for.
pub open spec fn lookup_text(peer: Seq<u8>, found: bool, count: nat) -> Seq<char> {
    if found {
        "寻址成功："@ + short_text(peer) + " 的新地址已更新（"@ + decimal(count)
            + " 个），已自动重发失败消息"@
    } else {
        "寻址失败：未找到 "@ + short_text(peer) + " 的新地址"@
    }
}

/// The state after an event of the network layer.
pub open spec fn event_shown(s: AppView, e: EventView, now: u64) -> AppView {
    match e {
        EventView::MessageReceived { peer, content, seq, ts } => message_shown(
            s,
            peer,
            content,
            seq,
            ts,
        ),
        EventView::MessageAcked { peer, seq } => shown(
            AppView { msgs: talk_status(s.msgs, hex_text(peer), seq, MsgStatus::Sent), ..s },
            "已送达 "@ + short_text(peer),
        ),
        EventView::MessageFailed { peer, seq } => failure_shown(s, peer, seq),
        EventView::AddrResult { peer, found, count } => shown(s, lookup_text(peer, found, count)),
        EventView::AttachReceived { peer, kind, name, data, ts } => attach_shown(
            s,
            peer,
            kind,
            name,
            data,
            ts,
        ),
        EventView::AttachAcked { peer, transfer } => shown(
            AppView {
                msgs: talk_transfer(s.msgs, hex_text(peer), transfer, MsgStatus::Sent),
                ..s
            },
            "附件已送达 "@ + short_text(peer),
        ),
        EventView::AttachFailed { peer, transfer } => shown(
            AppView {
                msgs: talk_transfer(s.msgs, hex_text(peer), transfer, MsgStatus::Failed),
                ..s
            },
            "附件发送失败 "@ + short_text(peer),
        ),
        EventView::FriendSeen { peer } => AppView {
            friends: friends_seen(s.friends, hex_text(peer), now),
            ..s
        },
        EventView::Status(line) => shown(s, line),
    }
}

/// A text with the short user ID of someone between two others.
fn about(head: &str, peer: &[u8; 32], tail: &str) -> (r: String)
    ensures
        r@ == head@ + short_text(peer@) + tail@,
{
    let mut s = head.to_owned();
    s.append(&id::short(peer));
    s.append(tail);
    s
}

impl App {
    /// Takes in an event of the network layer.
    pub fn handle_event(&mut self, ev: NetEvent)
        ensures
            exists|now: u64| final(self)@ == #[trigger] event_shown(old(self)@, ev@, now),
    {
        self.handle_event_at(ev, unix_millis());
    }

    fn message_received(&mut self, from: [u8; 32], content: String, seq: u32, ts: u64)
        ensures
            final(self)@ == message_shown(old(self)@, from@, content@, seq, ts),
    {
        let ghost s = self@;
        let key = id::encode(from);
        let mut line = "< ".to_owned();
        line.append(&show_id(&key));
        line.append(": ");
        line.append(&content);
        let mut note = about("收到 ", &from, ": ");
        note.append(&content);
        let ghost cv = content@;
        let m = UiMsg {
            dir: Dir::In,
            text: content,
            status: MsgStatus::Sent,
            seq,
            ts,
            kind: MsgKind::Text,
            transfer: None,
        };
        add_msg(&mut self.msgs, &key, m);
        see_friend(&mut self.friends, &key, ts);
        assert(line@ =~= received_line(key@, cv));
        assert(note@ =~= "收到 "@ + short_text(from@) + ": "@ + cv);
        self.act(Action::Log { ts, text: line });
        self.push_status(note);
        assert(self@ =~= message_shown(s, from@, cv, seq, ts));
    }

    fn message_failed(&mut self, to: [u8; 32], seq: u32)
        ensures
            final(self)@ == failure_shown(old(self)@, to@, seq),
    {
        let key = id::encode(to);
        set_talk_status(&mut self.msgs, &key, seq, MsgStatus::Failed);
        let line = about("消息到 ", &to, " 发送失败（无响应）。Ctrl+F 查找新地址 / Ctrl+R 重发");
        self.push_status(line);
        if self.auto_addr {
            self.act(Action::Net(NetCommand::FindAddress { recipient: to }));
        }
        assert(self@ =~= failure_shown(old(self)@, to@, seq));
    }

    fn attach_received(
        &mut self,
        from: [u8; 32],
        kind: u8,
        name: String,
        data: Vec<u8>,
        ts: u64,
    )
        ensures
            final(self)@ == attach_shown(old(self)@, from@, kind, name@, data@, ts),
    {
        let ghost s = self@;
        let ghost bytes = data@;
        let key = id::encode(from);
        let mut note = about("收到 ", &from, " 的附件: ");
        note.append(&name);
        let m = UiMsg {
            dir: Dir::In,
            text: String::new(),
            status: MsgStatus::Sent,
            seq: 0,
            ts,
            kind: kind_of_attach(kind, &name, data),
            transfer: None,
        };
        add_msg(&mut self.msgs, &key, m);
        see_friend(&mut self.friends, &key, ts);
        assert(note@ =~= "收到 "@ + short_text(from@) + " 的附件: "@ + name@);
        self.push_status(note);
        assert(self@ =~= attach_shown(s, from@, kind, name@, bytes, ts));
    }

    /// Takes in an event of the network layer at a given time.
    pub fn handle_event_at(&mut self, ev: NetEvent, now: u64)
        ensures
            final(self)@ == event_shown(old(self)@, ev@, now),
    {
        let ghost s = self@;
        match ev {
            NetEvent::MessageReceived { from, content, seq, ts } => {
                self.message_received(from, content, seq, ts);
            },
            NetEvent::MessageAcked { to, seq } => {
                let key = id::encode(to);
                set_talk_status(&mut self.msgs, &key, seq, MsgStatus::Sent);
                self.push_status(about("已送达 ", &to, ""));
                proof {
                    reveal_strlit("");
                    assert("已送达 "@ + short_text(to@) + ""@ =~= "已送达 "@ + short_text(to@));
                }
            },
            NetEvent::MessageFailed { to, seq } => {
                self.message_failed(to, seq);
            },
            NetEvent::AddrResult { target, found, count } => {
                let line = lookup_line(&target, found, count);
                self.push_status(line);
            },
            NetEvent::AttachReceived { from, kind, name, data, ts } => {
                self.attach_received(from, kind, name, data, ts);
            },
            NetEvent::AttachAcked { to, transfer } => {
                let key = id::encode(to);
                set_talk_transfer(&mut self.msgs, &key, &transfer, MsgStatus::Sent);
                self.push_status(about("附件已送达 ", &to, ""));
                proof {
                    reveal_strlit("");
                    assert("附件已送达 "@ + short_text(to@) + ""@ =~= "附件已送达 "@ + short_text(to@));
                }
            },
            NetEvent::AttachFailed { to, transfer } => {
                let key = id::encode(to);
                set_talk_transfer(&mut self.msgs, &key, &transfer, MsgStatus::Failed);
                self.push_status(about("附件发送失败 ", &to, ""));
                proof {
                    reveal_strlit("");
                    assert("附件发送失败 "@ + short_text(to@) + ""@ =~= "附件发送失败 "@ + short_text(to@));
                }
            },
            NetEvent::FriendSeen { id } => {
                let key = id::encode(id);
                see_friend(&mut self.friends, &key, now);
            },
            NetEvent::Status(line) => {
                self.push_status(line);
            },
        }
        assert(self@ =~= event_shown(s, ev@, now));
    }
}

fn lookup_line(target: &[u8; 32], found: bool, count: usize) -> (r: String)
    ensures
        r@ == lookup_text(target@, found, count as nat),
{
    if found {
        let mut s = about("寻址成功：", target, " 的新地址已更新（");
        push_decimal(&mut s, count as u64);
        s.append(" 个），已自动重发失败消息");
        s
    } else {
        about("寻址失败：未找到 ", target, " 的新地址")
    }
}

// ---------- laws ----------

/// A message that is acknowledged or fails keeps everything but its status,
/// and no other message of the conversation changes.
pub proof fn law_status_only(v: Seq<UiMsgView>, seq: u32, status: MsgStatus, i: int)
    requires
        0 <= i < v.len(),
    ensures
        status_set(v, seq, status).len() == v.len(),
        status_set(v, seq, status)[i] == v[i] || (v[i].dir == Dir::Out && v[i].seq == seq
            && status_set(v, seq, status)[i] == UiMsgView { status, ..v[i] }),
    decreases v.len(),
{
    lemma_status_len(v, seq, status);
    let t = v.drop_last();
    lemma_status_len(t, seq, status);
    if !(v.last().dir == Dir::Out && v.last().seq == seq) && i < t.len() {
        law_status_only(t, seq, status, i);
        assert(t[i] == v[i]);
    }
}

proof fn lemma_status_len(v: Seq<UiMsgView>, seq: u32, status: MsgStatus)
    ensures
        status_set(v, seq, status).len() == v.len(),
    decreases v.len(),
{
    if v.len() > 0 {
        lemma_status_len(v.drop_last(), seq, status);
    }
}

/// A message that was sent is the last one of its conversation; once it is
/// acknowledged or fails, it shows that.
pub proof fn law_message_life(s: AppView, pk: Seq<u8>, text: Seq<char>, ts: u64, now: u64)
    ensures
        ({
            let key = hex_text(pk);
            let seq = next_number(s.next_seq, key);
            let sent = text_queued(s, key, pk, text, ts);
            let acked = event_shown(sent, EventView::MessageAcked { peer: pk, seq }, now);
            let failed = event_shown(sent, EventView::MessageFailed { peer: pk, seq }, now);
            &&& msgs_of(sent.msgs, key).last() == text_msg(text, seq, ts)
            &&& msgs_of(acked.msgs, key).last() == (UiMsgView {
                status: MsgStatus::Sent,
                ..text_msg(text, seq, ts)
            })
            &&& msgs_of(failed.msgs, key).last() == (UiMsgView {
                status: MsgStatus::Failed,
                ..text_msg(text, seq, ts)
            })
        }),
{
    let key = hex_text(pk);
    let seq = next_number(s.next_seq, key);
    let sent = text_queued(s, key, pk, text, ts);
    let v = msgs_of(s.msgs, key).push(text_msg(text, seq, ts));
    let other = key.push('0');
    assert(other.len() != key.len());
    law_table(s.msgs, key, v, other);
    law_table(sent.msgs, key, status_set(v, seq, MsgStatus::Sent), other);
    law_table(sent.msgs, key, status_set(v, seq, MsgStatus::Failed), other);
}

} // verus!
