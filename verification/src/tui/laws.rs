//! What the chat window promises: what comes in is shown in its conversation,
//! what goes out is followed up, and failed messages can be sent again.

use vstd::prelude::*;

use crate::crypto::id::{hex_text, id_of_text, IdError};
use crate::net::event::{CommandView, EventView};
use crate::store::friends::{find_friend, lemma_find_friend, FriendView};
use crate::table::{has_key, law_table, lemma_lookup_push, lookup};
use crate::text::trimmed;
use crate::tui::app::{
    current_of, first_talks, incoming, msgs_of, next_number, refreshed, selected_next,
    selected_prev, shown, with_msg, ActionView, AppView, Dir, DraftView, KindView, MsgStatus, Talks,
    UiMsgView, NO_FRIEND,
};
use crate::tui::events::{key_step, KeyCode, KeyPress};
use crate::tui::incoming::{event_shown, friends_seen, received_line, status_set, transfer_set};
use crate::tui::sending::{
    attach_msg, attach_sent, failed_texts, input_sent, retries, sent_line, text_queued,
    texts_queued,
};
use crate::tui::settings::{features_set, Features};
use crate::tui::ui::is_online;

verus! {

// ---------- conversations ----------

/// A conversation is told from another by its key.
proof fn lemma_with_msg(talks: Talks, key: Seq<char>, m: UiMsgView, other: Seq<char>)
    requires
        other != key,
    ensures
        msgs_of(with_msg(talks, key, m), key) == msgs_of(talks, key).push(m),
        msgs_of(with_msg(talks, key, m), other) == msgs_of(talks, other),
{
    law_table(talks, key, msgs_of(talks, key).push(m), other);
}

/// The lines of the status bar are the last twenty, in the order in which they
/// were shown.
pub proof fn law_status_lines(s: AppView, line: Seq<char>)
    requires
        s.status.len() <= 20,
    ensures
        ({
            let r = shown(s, line);
            let gone: int = if s.status.len() == 20 {
                1
            } else {
                0
            };
            &&& r == (AppView { status: r.status, ..s })
            &&& r.status.len() == s.status.len() + 1 - gone
            &&& r.status.last() == line
            &&& forall|i: int|
                0 <= i < r.status.len() - 1 ==> #[trigger] r.status[i] == s.status[i + gone]
        }),
{
}

/// Whether a message is the last one that went out under a number.
pub open spec fn is_last_out(v: Seq<UiMsgView>, seq: u32, i: int) -> bool {
    &&& 0 <= i < v.len()
    &&& v[i].dir == Dir::Out
    &&& v[i].seq == seq
    &&& forall|k: int|
        i < k < v.len() ==> !((#[trigger] v[k]).dir == Dir::Out && v[k].seq == seq)
}

/// Setting a status changes exactly the last message that went out under the
/// number.
pub proof fn law_status_set(v: Seq<UiMsgView>, seq: u32, status: MsgStatus)
    ensures
        status_set(v, seq, status).len() == v.len(),
        forall|i: int|
            0 <= i < v.len() ==> #[trigger] status_set(v, seq, status)[i] == if is_last_out(
                v,
                seq,
                i,
            ) {
                UiMsgView { status, ..v[i] }
            } else {
                v[i]
            },
    decreases v.len(),
{
    if v.len() > 0 {
        let t = v.drop_last();
        let n = v.len() - 1;
        law_status_set(t, seq, status);
        let r = status_set(v, seq, status);
        assert forall|i: int| 0 <= i < v.len() implies #[trigger] r[i] == if is_last_out(
            v,
            seq,
            i,
        ) {
            UiMsgView { status, ..v[i] }
        } else {
            v[i]
        } by {
            if v[n].dir == Dir::Out && v[n].seq == seq {
                if i < n {
                    assert(!is_last_out(v, seq, i));
                }
            } else if i < n {
                assert(t[i] == v[i]);
                assert(r[i] == status_set(t, seq, status)[i]);
                assert(is_last_out(v, seq, i) == is_last_out(t, seq, i)) by {
                    assert forall|k: int| i < k < t.len() implies t[k] == #[trigger] v[k] by {}
                    if is_last_out(t, seq, i) {
                        assert forall|k: int| i < k < v.len() implies !((
                        #[trigger] v[k]).dir == Dir::Out && v[k].seq == seq) by {
                            if k < n {
                                assert(t[k] == v[k]);
                            }
                        }
                    }
                    if is_last_out(v, seq, i) {
                        assert forall|k: int| i < k < t.len() implies !((
                        #[trigger] t[k]).dir == Dir::Out && t[k].seq == seq) by {
                            assert(v[k] == t[k]);
                        }
                    }
                }
            }
        }
    }
}

/// A friend that was seen is marked with the time, and nobody else is.
pub proof fn law_friends_seen(fs: Seq<FriendView>, key: Seq<char>, ts: u64)
    ensures
        friends_seen(fs, key, ts).len() == fs.len(),
        forall|i: int|
            0 <= i < fs.len() ==> #[trigger] friends_seen(fs, key, ts)[i] == if fs[i].pubkey
                == key && (forall|j: int| 0 <= j < i ==> (#[trigger] fs[j]).pubkey != key) {
                FriendView { last_seen: Some(ts), ..fs[i] }
            } else {
                fs[i]
            },
{
    lemma_find_friend(fs, key);
    let at = find_friend(fs, key);
    let r = friends_seen(fs, key, ts);
    assert forall|i: int| 0 <= i < fs.len() implies #[trigger] r[i] == if fs[i].pubkey == key
        && (forall|j: int| 0 <= j < i ==> (#[trigger] fs[j]).pubkey != key) {
        FriendView { last_seen: Some(ts), ..fs[i] }
    } else {
        fs[i]
    } by {
        if i < at {
            assert(fs[i].pubkey != key);
        } else if i > at {
            assert(fs[at].pubkey == key);
        }
    }
}

/// A message or an attachment that comes in is added to its conversation, as
/// the last one, and is unread there; its sender has been seen when it was
/// sent. Other conversations stay as they are.
pub proof fn law_incoming_is_shown(
    s: AppView,
    peer: Seq<u8>,
    content: Seq<char>,
    seq: u32,
    kind: u8,
    name: Seq<char>,
    data: Seq<u8>,
    ts: u64,
    now: u64,
    other: Seq<char>,
)
    requires
        other != hex_text(peer),
    ensures
        ({
            let key = hex_text(peer);
            let e = EventView::MessageReceived { peer, content, seq, ts };
            let r = event_shown(s, e, now);
            let m = msgs_of(r.msgs, key).last();
            &&& msgs_of(r.msgs, key) == msgs_of(s.msgs, key).push(m)
            &&& m.dir == Dir::In && m.text == content && m.seq == seq && m.ts == ts && m.kind
                == KindView::Text
            &&& incoming(msgs_of(r.msgs, key)) == incoming(msgs_of(s.msgs, key)) + 1
            &&& msgs_of(r.msgs, other) == msgs_of(s.msgs, other)
            &&& r.friends == friends_seen(s.friends, key, ts)
            &&& r.actions == s.actions.push(
                ActionView::Log { ts, text: received_line(key, content) },
            )
        }),
        ({
            let key = hex_text(peer);
            let e = EventView::AttachReceived { peer, kind, name, data, ts };
            let r = event_shown(s, e, now);
            let m = msgs_of(r.msgs, key).last();
            &&& msgs_of(r.msgs, key) == msgs_of(s.msgs, key).push(m)
            &&& m.dir == Dir::In && m.ts == ts
            &&& kind == 1 ==> m.kind == KindView::Image(data)
            &&& kind == 2 ==> m.kind == KindView::Video(name, data)
            &&& kind != 1 && kind != 2 ==> m.kind == KindView::File(name, data)
            &&& incoming(msgs_of(r.msgs, key)) == incoming(msgs_of(s.msgs, key)) + 1
            &&& msgs_of(r.msgs, other) == msgs_of(s.msgs, other)
            &&& r.friends == friends_seen(s.friends, key, ts)
            &&& r.actions == s.actions
        }),
{
    let key = hex_text(peer);
    let a = event_shown(s, EventView::MessageReceived { peer, content, seq, ts }, now);
    let b = event_shown(s, EventView::AttachReceived { peer, kind, name, data, ts }, now);
    let m = UiMsgView {
        dir: Dir::In,
        text: content,
        status: MsgStatus::Sent,
        seq,
        ts,
        kind: KindView::Text,
        transfer: None,
    };
    let n = UiMsgView {
        dir: Dir::In,
        text: Seq::empty(),
        status: MsgStatus::Sent,
        seq: 0,
        ts,
        kind: if kind == 1 {
            KindView::Image(data)
        } else if kind == 2 {
            KindView::Video(name, data)
        } else {
            KindView::File(name, data)
        },
        transfer: None,
    };
    lemma_with_msg(s.msgs, key, m, other);
    lemma_with_msg(s.msgs, key, n, other);
    assert(msgs_of(s.msgs, key).push(m).drop_last() =~= msgs_of(s.msgs, key));
    assert(msgs_of(s.msgs, key).push(n).drop_last() =~= msgs_of(s.msgs, key));
}

/// What becomes of a message that went out is marked on it: on the last one
/// under its number, or on each one of its transfer. Other messages and other
/// conversations stay as they are.
pub proof fn law_outcome_is_marked(
    s: AppView,
    peer: Seq<u8>,
    seq: u32,
    transfer: Seq<u8>,
    now: u64,
    i: int,
    other: Seq<char>,
)
    requires
        0 <= i < msgs_of(s.msgs, hex_text(peer)).len(),
        other != hex_text(peer),
    ensures
        ({
            let key = hex_text(peer);
            let v = msgs_of(s.msgs, key);
            let acked = event_shown(s, EventView::MessageAcked { peer, seq }, now);
            let failed = event_shown(s, EventView::MessageFailed { peer, seq }, now);
            let taken = event_shown(s, EventView::AttachAcked { peer, transfer }, now);
            let lost = event_shown(s, EventView::AttachFailed { peer, transfer }, now);
            &&& msgs_of(acked.msgs, key).len() == v.len()
            &&& msgs_of(failed.msgs, key).len() == v.len()
            &&& msgs_of(taken.msgs, key).len() == v.len()
            &&& msgs_of(lost.msgs, key).len() == v.len()
            &&& msgs_of(acked.msgs, key)[i] == if is_last_out(v, seq, i) {
                UiMsgView { status: MsgStatus::Sent, ..v[i] }
            } else {
                v[i]
            }
            &&& msgs_of(failed.msgs, key)[i] == if is_last_out(v, seq, i) {
                UiMsgView { status: MsgStatus::Failed, ..v[i] }
            } else {
                v[i]
            }
            &&& msgs_of(taken.msgs, key)[i] == if v[i].transfer == Some(transfer) {
                UiMsgView { status: MsgStatus::Sent, ..v[i] }
            } else {
                v[i]
            }
            &&& msgs_of(lost.msgs, key)[i] == if v[i].transfer == Some(transfer) {
                UiMsgView { status: MsgStatus::Failed, ..v[i] }
            } else {
                v[i]
            }
            &&& msgs_of(acked.msgs, other) == msgs_of(s.msgs, other)
            &&& msgs_of(failed.msgs, other) == msgs_of(s.msgs, other)
            &&& msgs_of(taken.msgs, other) == msgs_of(s.msgs, other)
            &&& msgs_of(lost.msgs, other) == msgs_of(s.msgs, other)
        }),
{
    let key = hex_text(peer);
    let v = msgs_of(s.msgs, key);
    law_status_set(v, seq, MsgStatus::Sent);
    law_status_set(v, seq, MsgStatus::Failed);
    law_table(s.msgs, key, status_set(v, seq, MsgStatus::Sent), other);
    law_table(s.msgs, key, status_set(v, seq, MsgStatus::Failed), other);
    law_table(s.msgs, key, transfer_set(v, transfer, MsgStatus::Sent), other);
    law_table(s.msgs, key, transfer_set(v, transfer, MsgStatus::Failed), other);
}

/// A failed message starts a search for the address if that is switched on, and
/// otherwise asks nothing of the network.
pub proof fn law_failure_may_search(s: AppView, peer: Seq<u8>, seq: u32, now: u64)
    ensures
        ({
            let r = event_shown(s, EventView::MessageFailed { peer, seq }, now);
            r.actions == if s.auto_addr {
                s.actions.push(ActionView::Net(CommandView::FindAddress { recipient: peer }))
            } else {
                s.actions
            }
        }),
        ({
            let r = event_shown(s, EventView::FriendSeen { peer }, now);
            r == (AppView { friends: friends_seen(s.friends, hex_text(peer), now), ..s })
        }),
{
}

// ---------- sending ----------

/// Messages to a friend are numbered from zero on, one after the other.
pub proof fn law_numbers_follow(
    s: AppView,
    key: Seq<char>,
    pk: Seq<u8>,
    text: Seq<char>,
    ts: u64,
    other: Seq<char>,
)
    requires
        other != key,
    ensures
        lookup(s.next_seq, key) is None ==> next_number(s.next_seq, key) == 0,
        ({
            let n = next_number(s.next_seq, key);
            let r = text_queued(s, key, pk, text, ts);
            &&& n < u32::MAX ==> next_number(r.next_seq, key) == n + 1
            &&& n == u32::MAX ==> next_number(r.next_seq, key) == 0
            &&& next_number(r.next_seq, other) == next_number(s.next_seq, other)
        }),
{
    law_table(s.next_seq, key, next_number(s.next_seq, key), other);
}

/// Whether a message was queued: it stands last in its conversation, as being
/// sent, and is handed to the network under the same number.
pub open spec fn is_queued(
    s: AppView,
    r: AppView,
    key: Seq<char>,
    pk: Seq<u8>,
    text: Seq<char>,
    ts: u64,
) -> bool {
    let m = msgs_of(r.msgs, key).last();
    &&& msgs_of(r.msgs, key) == msgs_of(s.msgs, key).push(m)
    &&& m.dir == Dir::Out
    &&& m.text == text
    &&& m.status == MsgStatus::Sending
    &&& m.ts == ts
    &&& m.kind == KindView::Text
    &&& m.seq == next_number(s.next_seq, key)
    &&& r.actions.len() > s.actions.len()
    &&& r.actions[s.actions.len() as int] == ActionView::Net(
        CommandView::Send { recipient: pk, content: text, seq: m.seq },
    )
    &&& forall|i: int| 0 <= i < s.actions.len() ==> #[trigger] r.actions[i] == s.actions[i]
}

/// What is typed is sent to the open conversation without the blanks around
/// it, and noted in the log; the input is empty then. Without a conversation,
/// without a key, or with blanks only, nothing happens.
pub proof fn law_input_is_sent(s: AppView, ts: u64, other: Seq<char>)
    ensures
        ({
            let r = input_sent(s, ts);
            let text = trimmed(s.input);
            match current_of(s) {
                None => r == s,
                Some(f) => match id_of_text(f.pubkey) {
                    Err(_) => r == s,
                    Ok(pk) => if text.len() == 0 {
                        r == s
                    } else {
                        &&& is_queued(s, r, f.pubkey, pk, text, ts)
                        &&& r.input.len() == 0
                        &&& r.actions.len() == s.actions.len() + 2
                        &&& r.actions.last() == ActionView::Log {
                            ts,
                            text: sent_line(f.pubkey, text),
                        }
                        &&& other != f.pubkey ==> msgs_of(r.msgs, other) == msgs_of(s.msgs, other)
                        &&& r.selected == s.selected && r.friends == s.friends
                    },
                },
            }
        }),
{
    match current_of(s) {
        Some(f) => match id_of_text(f.pubkey) {
            Ok(pk) => {
                let key = f.pubkey;
                let x = key.push(' ');
                assert(x.len() != key.len());
                let q = text_queued(s, key, pk, trimmed(s.input), ts);
                let m = msgs_of(q.msgs, key).last();
                lemma_queued(s, key, pk, trimmed(s.input), ts, x);
                if other != key {
                    lemma_queued(s, key, pk, trimmed(s.input), ts, other);
                }
            },
            Err(_) => {},
        },
        None => {},
    }
}

proof fn lemma_queued(
    s: AppView,
    key: Seq<char>,
    pk: Seq<u8>,
    text: Seq<char>,
    ts: u64,
    other: Seq<char>,
)
    requires
        other != key,
    ensures
        is_queued(s, text_queued(s, key, pk, text, ts), key, pk, text, ts),
        text_queued(s, key, pk, text, ts).actions.len() == s.actions.len() + 1,
        msgs_of(text_queued(s, key, pk, text, ts).msgs, other) == msgs_of(s.msgs, other),
{
    let seq = next_number(s.next_seq, key);
    let m = UiMsgView {
        dir: Dir::Out,
        text,
        status: MsgStatus::Sending,
        seq,
        ts,
        kind: KindView::Text,
        transfer: None,
    };
    lemma_with_msg(s.msgs, key, m, other);
}

/// Whether a message went out and failed.
pub open spec fn has_failed(m: UiMsgView) -> bool {
    m.dir == Dir::Out && m.status == MsgStatus::Failed
}

/// Whether a message with a text went out and failed.
pub open spec fn some_failed(v: Seq<UiMsgView>, text: Seq<char>) -> bool {
    exists|i: int| 0 <= i < v.len() && has_failed(#[trigger] v[i]) && v[i].text == text
}

/// How many messages went out and failed.
pub open spec fn failed_count(v: Seq<UiMsgView>) -> nat
    decreases v.len(),
{
    if v.len() == 0 {
        0
    } else {
        failed_count(v.drop_last()) + if has_failed(v.last()) {
            1nat
        } else {
            0nat
        }
    }
}

proof fn lemma_failed_texts(v: Seq<UiMsgView>)
    ensures
        failed_texts(v).len() == failed_count(v),
        forall|i: int|
            0 <= i < v.len() && has_failed(#[trigger] v[i]) ==> failed_texts(v).contains(v[i].text),
        forall|j: int|
            0 <= j < failed_texts(v).len() ==> some_failed(v, #[trigger] failed_texts(v)[j]),
    decreases v.len(),
{
    if v.len() > 0 {
        let t = v.drop_last();
        lemma_failed_texts(t);
        let f = failed_texts(t);
        let r = failed_texts(v);
        assert forall|i: int| 0 <= i < v.len() && has_failed(#[trigger] v[i]) implies r.contains(
            v[i].text,
        ) by {
            if i < t.len() {
                assert(t[i] == v[i]);
                let k = f.index_of(t[i].text);
                assert(r[k] == v[i].text);
            } else {
                assert(r[r.len() - 1] == v[i].text);
            }
        }
        assert forall|j: int| 0 <= j < r.len() implies some_failed(v, #[trigger] r[j]) by {
            if j < f.len() {
                assert(r[j] == f[j]);
                let i = choose|i: int|
                    0 <= i < t.len() && has_failed(#[trigger] t[i]) && t[i].text == f[j];
                assert(v[i] == t[i]);
            } else {
                assert(has_failed(v[v.len() - 1]));
            }
        }
    }
}

/// Whether an action hands a text to the network for someone.
pub open spec fn is_send_of(a: ActionView, pk: Seq<u8>, text: Seq<char>) -> bool {
    a matches ActionView::Net(CommandView::Send { recipient, content, .. }) && recipient == pk
        && content == text
}

proof fn lemma_texts_queued(
    s: AppView,
    key: Seq<char>,
    pk: Seq<u8>,
    lines: Seq<Seq<char>>,
    times: Seq<u64>,
)
    requires
        times.len() == lines.len(),
    ensures
        ({
            let r = texts_queued(s, key, pk, lines, times);
            &&& r.actions.len() == s.actions.len() + lines.len()
            &&& forall|i: int| 0 <= i < s.actions.len() ==> #[trigger] r.actions[i] == s.actions[i]
            &&& forall|j: int|
                0 <= j < lines.len() ==> is_send_of(
                    r.actions[s.actions.len() + j],
                    pk,
                    #[trigger] lines[j],
                )
            &&& msgs_of(r.msgs, key).len() == msgs_of(s.msgs, key).len() + lines.len()
        }),
    decreases lines.len(),
{
    if lines.len() > 0 {
        let t = lines.drop_last();
        lemma_texts_queued(s, key, pk, t, times.drop_last());
        let f = texts_queued(s, key, pk, t, times.drop_last());
        let r = texts_queued(s, key, pk, lines, times);
        let other = key.push(' ');
        assert(other.len() != key.len());
        lemma_queued(f, key, pk, lines.last(), times.last(), other);
        assert forall|i: int| 0 <= i < s.actions.len() implies #[trigger] r.actions[i]
            == s.actions[i] by {
            assert(r.actions[i] == f.actions[i]);
        }
        assert forall|j: int| 0 <= j < lines.len() implies is_send_of(
            r.actions[s.actions.len() + j],
            pk,
            #[trigger] lines[j],
        ) by {
            if j < t.len() {
                assert(t[j] == lines[j]);
                assert(r.actions[s.actions.len() + j] == f.actions[s.actions.len() + j]);
            }
        }
    }
}

/// Sending again hands every message of the open conversation that went out
/// and failed to the network once more, and nothing else; each stands in the
/// conversation again.
pub proof fn law_failed_are_sent_again(s: AppView, s2: AppView, f: FriendView, pk: Seq<u8>)
    requires
        retries(s, s2),
        current_of(s) == Some(f),
        id_of_text(f.pubkey) == Ok::<Seq<u8>, IdError>(pk),
    ensures
        ({
            let v = msgs_of(s.msgs, f.pubkey);
            let n = s.actions.len();
            &&& s2.actions.len() == n + failed_count(v)
            &&& msgs_of(s2.msgs, f.pubkey).len() == v.len() + failed_count(v)
            &&& forall|i: int| 0 <= i < n ==> #[trigger] s2.actions[i] == s.actions[i]
            &&& forall|i: int|
                0 <= i < v.len() && has_failed(#[trigger] v[i]) ==> exists|k: int|
                    n <= k < s2.actions.len() && is_send_of(#[trigger] s2.actions[k], pk, v[i].text)
            &&& forall|k: int|
                n <= k < s2.actions.len() ==> exists|i: int|
                    0 <= i < v.len() && has_failed(#[trigger] v[i]) && is_send_of(
                        #[trigger] s2.actions[k],
                        pk,
                        v[i].text,
                    )
        }),
{
    let v = msgs_of(s.msgs, f.pubkey);
    let n = s.actions.len() as int;
    let lines = failed_texts(v);
    lemma_failed_texts(v);
    if lines.len() > 0 {
        let times = choose|times: Seq<u64>|
            times.len() == lines.len() && s2 == shown(
                #[trigger] texts_queued(s, f.pubkey, pk, lines, times),
                "已重发失败消息"@,
            );
        lemma_texts_queued(s, f.pubkey, pk, lines, times);
        assert forall|i: int| 0 <= i < v.len() && has_failed(#[trigger] v[i]) implies exists|
            k: int,
        |
            n <= k < s2.actions.len() && is_send_of(#[trigger] s2.actions[k], pk, v[i].text) by {
            let j = lines.index_of(v[i].text);
            assert(lines[j] == v[i].text);
            assert(is_send_of(s2.actions[n + j], pk, lines[j]));
        }
        assert forall|k: int| n <= k < s2.actions.len() implies exists|i: int|
            0 <= i < v.len() && has_failed(#[trigger] v[i]) && is_send_of(
                #[trigger] s2.actions[k],
                pk,
                v[i].text,
            ) by {
            let j = k - n;
            assert(is_send_of(s2.actions[n + j], pk, lines[j]));
            assert(some_failed(v, lines[j]));
            let i = choose|i: int|
                0 <= i < v.len() && has_failed(#[trigger] v[i]) && v[i].text == lines[j];
            assert(has_failed(v[i]));
        }
    } else {
        assert forall|i: int| 0 <= i < v.len() implies !has_failed(#[trigger] v[i]) by {
            if has_failed(v[i]) {
                assert(lines.contains(v[i].text));
            }
        }
    }
}

/// An attachment that was read is shown as being sent and handed to the
/// network under the same transfer; one that could not be read is not.
pub proof fn law_attachment_is_sent(
    s: AppView,
    d: DraftView,
    data: Seq<u8>,
    ts: u64,
    transfer: Seq<u8>,
    f: FriendView,
    pk: Seq<u8>,
    why: Seq<char>,
)
    requires
        current_of(s) == Some(f),
        id_of_text(f.pubkey) == Ok::<Seq<u8>, IdError>(pk),
    ensures
        ({
            let r = attach_sent(s, d, Ok(data), ts, transfer);
            let m = msgs_of(r.msgs, f.pubkey).last();
            &&& msgs_of(r.msgs, f.pubkey) == msgs_of(s.msgs, f.pubkey).push(m)
            &&& m.dir == Dir::Out && m.status == MsgStatus::Sending && m.transfer == Some(transfer)
                && m.ts == ts
            &&& r.actions.last() == ActionView::Net(
                CommandView::SendAttach {
                    recipient: pk,
                    kind: d.kind,
                    name: d.name,
                    data,
                    ts,
                    transfer,
                },
            )
            &&& next_number(r.next_seq, f.pubkey) != m.seq
        }),
        ({
            let r = attach_sent(s, d, Err(why), ts, transfer);
            r.msgs == s.msgs && r.actions == s.actions && r.next_seq == s.next_seq
        }),
{
    let key = f.pubkey;
    let other = key.push(' ');
    assert(other.len() != key.len());
    let r = attach_sent(s, d, Ok(data), ts, transfer);
    let seq = next_number(s.next_seq, key);
    law_table(s.next_seq, key, seq, other);
    lemma_with_msg(s.msgs, key, attach_msg(d, data, seq, ts, transfer), other);
}

// ---------- moving about ----------

/// Going to the next conversation and back leads back; neither leaves the
/// list, and at its ends nothing moves. A refresh keeps the selection where it
/// still stands for a friend.
pub proof fn law_selection(s: AppView, friends: Seq<FriendView>)
    requires
        s.friends.len() <= usize::MAX,
        friends.len() <= usize::MAX,
    ensures
        s.selected + 1 < s.friends.len() ==> selected_next(s).selected == s.selected + 1
            && selected_prev(selected_next(s)) == s,
        s.selected + 1 >= s.friends.len() ==> selected_next(s) == s,
        s.selected == 0 ==> selected_prev(s) == s,
        0 < s.selected < s.friends.len() ==> selected_next(selected_prev(s)) == s,
        refreshed(s, friends).friends == friends,
        s.selected < friends.len() ==> refreshed(s, friends).selected == s.selected,
        s.selected >= friends.len() && friends.len() > 0 && s.selected != NO_FRIEND ==> refreshed(
            s,
            friends,
        ).selected == friends.len() - 1,
{
}

/// Typing a character and taking it back leaves everything as it was; a
/// control character is not typed.
pub proof fn law_typing(s: AppView, a: AppView, b: AppView, c: char)
    requires
        key_step(s, a, KeyPress { ctrl: false, code: KeyCode::Char(c) }),
        key_step(a, b, KeyPress { ctrl: false, code: KeyCode::Backspace }),
    ensures
        !(c <= '\u{1f}' || '\u{7f}' <= c <= '\u{9f}') ==> a.input == s.input.push(c) && b == s,
        c <= '\u{1f}' || '\u{7f}' <= c <= '\u{9f}' ==> a == s,
        a == (AppView { input: a.input, ..s }),
{
    assert(s.input.push(c).drop_last() =~= s.input);
}

// ---------- settings ----------

/// Switching a feature on switches on just what it builds on, and switching
/// one off just what builds on it; anything else leaves the features alone.
pub proof fn law_features_exact(f: Features, feature: u8, on: bool)
    ensures
        ({
            let r = features_set(f, feature, on);
            &&& feature == 0 || feature > 3 ==> r == f
            &&& on && feature == 1 ==> r.avatar && r.media == f.media && r.file == f.file
            &&& on && feature == 2 ==> r.avatar && r.media && r.file == f.file
            &&& on && feature == 3 ==> r.avatar && r.media && r.file
            &&& !on && feature == 1 ==> !r.avatar && !r.media && !r.file
            &&& !on && feature == 2 ==> r.avatar == f.avatar && !r.media && !r.file
            &&& !on && feature == 3 ==> r.avatar == f.avatar && r.media == f.media && !r.file
        }),
{
}

// ---------- the start ----------

/// At the start every friend has a conversation, and all of them are empty.
pub proof fn law_first_talks(fs: Seq<FriendView>, key: Seq<char>)
    ensures
        msgs_of(first_talks(fs), key).len() == 0,
        has_key(first_talks(fs), key) <==> exists|i: int|
            0 <= i < fs.len() && (#[trigger] fs[i]).pubkey == key,
    decreases fs.len(),
{
    if fs.len() > 0 {
        let t = fs.drop_last();
        law_first_talks(t, key);
        let f = first_talks(t);
        let e = (fs.last().pubkey, Seq::<UiMsgView>::empty());
        lemma_lookup_push(f, e, key);
        if exists|i: int| 0 <= i < fs.len() && (#[trigger] fs[i]).pubkey == key {
            let i = choose|i: int| 0 <= i < fs.len() && (#[trigger] fs[i]).pubkey == key;
            if i < t.len() {
                assert(t[i].pubkey == key);
            }
        }
        if exists|i: int| 0 <= i < t.len() && (#[trigger] t[i]).pubkey == key {
            let i = choose|i: int| 0 <= i < t.len() && (#[trigger] t[i]).pubkey == key;
            assert(fs[i].pubkey == key);
        }
        if fs.last().pubkey == key {
            assert(fs[fs.len() - 1].pubkey == key);
        }
    }
}

/// A friend is online for five minutes after it was seen, and never before it
/// was seen at all.
pub proof fn law_online(f: FriendView, now: u64, ts: u64)
    ensures
        f.last_seen is None ==> !is_online(f, now),
        f.last_seen == Some(ts) ==> (is_online(f, now) <==> now - ts < 300_000),
{
}

} // verus!
