//! Sending messages and attachments.

use vstd::prelude::*;

use crate::bytes::copy_of;
use crate::config::{ChangeView, ConfigChange};
use crate::crypto::id::{self, id_of_text, show_id, shown_id};
use crate::net::event::{CommandView, NetCommand};
use crate::table::put;
use crate::text::{decimal, push_decimal, texts, trimmed};
use crate::tui::app::{
    acting, add_msg, attach_kind, current_of, draft_view, kind_of_attach, msg_views, msgs_of,
    next_number, random_id16, shown, take_number, with_msg, Action, ActionView, App, AppView,
    AttachDraft, Dir, DraftView, KindView, MsgKind, MsgStatus, UiMsg, UiMsgView, WarnChoice,
};
use crate::util::unix_millis;

verus! {

/// Above this many bytes an attachment is large.
pub const WARN_THRESHOLD: u64 = 0x20_0000;

// ---------- text ----------

/// A text message on its way.
pub open spec fn text_msg(text: Seq<char>, seq: u32, ts: u64) -> UiMsgView {
    UiMsgView {
        dir: Dir::Out,
        text,
        status: MsgStatus::Sending,
        seq,
        ts,
        kind: KindView::Text,
        transfer: None,
    }
}

/// The state after a text message was handed to the network layer.
pub open spec fn text_queued(
    s: AppView,
    key: Seq<char>,
    pk: Seq<u8>,
    text: Seq<char>,
    ts: u64,
) -> AppView {
    let seq = next_number(s.next_seq, key);
    AppView {
        msgs: with_msg(s.msgs, key, text_msg(text, seq, ts)),
        next_seq: put(s.next_seq, key, seq),
        actions: s.actions.push(
            ActionView::Net(CommandView::Send { recipient: pk, content: text, seq }),
        ),
        ..s
    }
}

/// The line of the message file for something that was sent.
pub open spec fn sent_line(key: Seq<char>, text: Seq<char>) -> Seq<char> {
    "> "@ + shown_id(key) + ": "@ + text
}

fn make_sent_line(key: &str, text: &str) -> (r: String)
    ensures
        r@ == sent_line(key@, text@),
{
    let mut s = "> ".to_owned();
    s.append(&show_id(key));
    s.append(": ");
    s.append(text);
    s
}

/// The state after the input was sent to the open conversation. Blanks around
/// it do not count, and a blank input is not sent.
pub open spec fn input_sent(s: AppView, ts: u64) -> AppView {
    let text = trimmed(s.input);
    match current_of(s) {
        Some(f) => match id_of_text(f.pubkey) {
            Ok(pk) => if text.len() == 0 {
                s
            } else {
                let q = text_queued(s, f.pubkey, pk, text, ts);
                AppView {
                    input: Seq::empty(),
                    ..acting(q, ActionView::Log { ts, text: sent_line(f.pubkey, text) })
                }
            },
            Err(_) => s,
        },
        None => s,
    }
}

/// The texts of the messages that were sent and failed.
pub open spec fn failed_texts(v: Seq<UiMsgView>) -> Seq<Seq<char>>
    decreases v.len(),
{
    if v.len() == 0 {
        Seq::empty()
    } else {
        let front = failed_texts(v.drop_last());
        if v.last().dir == Dir::Out && v.last().status == MsgStatus::Failed {
            front.push(v.last().text)
        } else {
            front
        }
    }
}

fn collect_failed(v: &Vec<UiMsg>) -> (r: Vec<String>)
    ensures
        texts(r@) == failed_texts(msg_views(v@)),
{
    let ghost all = msg_views(v@);
    let mut r: Vec<String> = Vec::new();
    let mut i: usize = 0;
    assert(texts(r@) =~= Seq::<Seq<char>>::empty());
    while i < v.len()
        invariant
            i <= v@.len(),
            all == msg_views(v@),
            texts(r@) == failed_texts(all.take(i as int)),
        decreases v@.len() - i,
    {
        assert(all.take(i + 1).drop_last() =~= all.take(i as int));
        assert(all.take(i + 1).last() == v@[i as int]@);
        if v[i].dir == Dir::Out && v[i].status == MsgStatus::Failed {
            let ghost before = texts(r@);
            r.push(v[i].text.clone());
            assert(texts(r@) =~= before.push(v@[i as int].text@));
        }
        i = i + 1;
    }
    assert(all.take(i as int) =~= all);
    r
}

/// The state after texts were sent again, each at its own time.
pub open spec fn texts_queued(
    s: AppView,
    key: Seq<char>,
    pk: Seq<u8>,
    lines: Seq<Seq<char>>,
    times: Seq<u64>,
) -> AppView
    decreases lines.len(),
{
    if lines.len() == 0 {
        s
    } else {
        text_queued(
            texts_queued(s, key, pk, lines.drop_last(), times.drop_last()),
            key,
            pk,
            lines.last(),
            times.last(),
        )
    }
}

/// Whether `s2` is `s` after the failed messages of the open conversation were
/// sent again.
pub open spec fn retries(s: AppView, s2: AppView) -> bool {
    match current_of(s) {
        None => s2 == s,
        Some(f) => {
            let lines = failed_texts(msgs_of(s.msgs, f.pubkey));
            if lines.len() == 0 {
                s2 == shown(s, "当前会话没有失败的已发送消息"@)
            } else {
                match id_of_text(f.pubkey) {
                    Err(_) => s2 == s,
                    Ok(pk) => exists|times: Seq<u64>|
                        times.len() == lines.len() && s2 == shown(
                            #[trigger] texts_queued(s, f.pubkey, pk, lines, times),
                            "已重发失败消息"@,
                        ),
                }
            }
        },
    }
}

/// The state after common friends were asked for an address.
pub open spec fn address_asked(s: AppView) -> AppView {
    match current_of(s) {
        None => s,
        Some(f) => match id_of_text(f.pubkey) {
            Err(_) => s,
            Ok(pk) => shown(
                acting(s, ActionView::Net(CommandView::FindAddress { recipient: pk })),
                "正在请求共同好友提供 "@ + shown_id(f.pubkey) + " 的新地址…"@,
            ),
        },
    }
}

impl App {
    fn queue_text(&mut self, key: &String, pk: [u8; 32], text: &str, ts: u64)
        ensures
            final(self)@ == text_queued(old(self)@, key@, pk@, text@, ts),
    {
        let ghost s = self@;
        let seq: u32 = take_number(&mut self.next_seq, key);
        let m = UiMsg {
            dir: Dir::Out,
            text: text.to_owned(),
            status: MsgStatus::Sending,
            seq,
            ts,
            kind: MsgKind::Text,
            transfer: None,
        };
        assert(m@ =~= text_msg(text@, seq, ts));
        add_msg(&mut self.msgs, key, m);
        let a = Action::Net(
            NetCommand::Send { recipient: pk, content: text.to_owned(), seq },
        );
        assert(a@ =~= ActionView::Net(
            CommandView::Send { recipient: pk@, content: text@, seq },
        ));
        self.act(a);
        assert(self@ =~= text_queued(s, key@, pk@, text@, ts));
    }

    /// Sends the input to the open conversation.
    pub fn send_current(&mut self)
        ensures
            exists|ts: u64| final(self)@ == #[trigger] input_sent(old(self)@, ts),
    {
        self.send_current_at(unix_millis());
    }

    /// Sends the input to the open conversation at a given time.
    pub fn send_current_at(&mut self, ts: u64)
        ensures
            final(self)@ == input_sent(old(self)@, ts),
    {
        let text = self.input.as_str().trim().to_owned();
        if text.as_str().is_empty() {
            return;
        }
        let key = match self.current_pubkey() {
            Some(k) => k,
            None => {
                return;
            },
        };
        let pk = match id::decode(&key) {
            Ok(p) => p,
            Err(_) => {
                return;
            },
        };
        self.queue_text(&key, pk, &text, ts);
        let line = make_sent_line(&key, &text);
        self.act(Action::Log { ts, text: line });
        self.input = String::new();
        assert(self@ =~= input_sent(old(self)@, ts));
    }

    /// Sends the failed messages of the open conversation again.
    pub fn retry_failed(&mut self)
        ensures
            retries(old(self)@, final(self)@),
    {
        let ghost s = self@;
        let key = match self.current_pubkey() {
            Some(k) => k,
            None => {
                return;
            },
        };
        let lines = match self.msgs.get(&key) {
            Some(list) => collect_failed(&list.items),
            None => Vec::new(),
        };
        assert(texts(lines@) =~= failed_texts(msgs_of(s.msgs, key@)));
        if lines.len() == 0 {
            self.push_status("当前会话没有失败的已发送消息".to_owned());
            return;
        }
        let pk = match id::decode(&key) {
            Ok(p) => p,
            Err(_) => {
                return;
            },
        };
        self.queue_all(&key, pk, &lines);
        self.push_status("已重发失败消息".to_owned());
    }

    fn queue_all(&mut self, key: &String, pk: [u8; 32], lines: &Vec<String>)
        ensures
            exists|times: Seq<u64>|
                times.len() == lines@.len() && final(self)@ == #[trigger] texts_queued(
                    old(self)@,
                    key@,
                    pk@,
                    texts(lines@),
                    times,
                ),
    {
        let ghost s = self@;
        let ghost all = texts(lines@);
        let ghost mut times: Seq<u64> = Seq::empty();
        let mut i: usize = 0;
        assert(s == texts_queued(s, key@, pk@, all.take(0), times));
        while i < lines.len()
            invariant
                i <= lines@.len(),
                all == texts(lines@),
                times.len() == i,
                self@ == texts_queued(s, key@, pk@, all.take(i as int), times),
            decreases lines@.len() - i,
        {
            let ts: u64 = unix_millis();
            self.queue_text(key, pk, &lines[i], ts);
            proof {
                let t2 = times.push(ts);
                assert(t2.drop_last() =~= times);
                assert(all.take(i + 1).drop_last() =~= all.take(i as int));
                assert(all.take(i + 1).last() == lines@[i as int]@);
                times = t2;
            }
            i = i + 1;
        }
        assert(all.take(i as int) =~= all);
    }

    /// Asks common friends for the address of the friend whose conversation
    /// is open.
    pub fn find_address(&mut self)
        ensures
            final(self)@ == address_asked(old(self)@),
    {
        let key = match self.current_pubkey() {
            Some(k) => k,
            None => {
                return;
            },
        };
        let pk = match id::decode(&key) {
            Ok(p) => p,
            Err(_) => {
                return;
            },
        };
        let mut line = "正在请求共同好友提供 ".to_owned();
        line.append(&show_id(&key));
        line.append(" 的新地址…");
        self.act(Action::Net(NetCommand::FindAddress { recipient: pk }));
        self.push_status(line);
    }
}

// ---------- attachments ----------

/// What is logged of an attachment.
pub open spec fn attach_text(kind: u8, name: Seq<char>) -> Seq<char> {
    "[附件 "@ + decimal(kind as nat) + " "@ + name + "]"@
}

/// An attachment on its way.
pub open spec fn attach_msg(
    d: DraftView,
    data: Seq<u8>,
    seq: u32,
    ts: u64,
    transfer: Seq<u8>,
) -> UiMsgView {
    UiMsgView {
        dir: Dir::Out,
        text: Seq::empty(),
        status: MsgStatus::Sending,
        seq,
        ts,
        kind: attach_kind(d.kind, d.name, data),
        transfer: Some(transfer),
    }
}

/// The state after an attachment was handed to the network layer.
pub open spec fn attach_queued(
    s: AppView,
    key: Seq<char>,
    pk: Seq<u8>,
    d: DraftView,
    data: Seq<u8>,
    ts: u64,
    transfer: Seq<u8>,
) -> AppView {
    let seq = next_number(s.next_seq, key);
    AppView {
        msgs: with_msg(s.msgs, key, attach_msg(d, data, seq, ts, transfer)),
        next_seq: put(s.next_seq, key, seq),
        actions: s.actions.push(
            ActionView::Log { ts, text: sent_line(key, attach_text(d.kind, d.name)) },
        ).push(
            ActionView::Net(
                CommandView::SendAttach {
                    recipient: pk,
                    kind: d.kind,
                    name: d.name,
                    data,
                    ts,
                    transfer,
                },
            ),
        ),
        ..s
    }
}

/// The state after an attachment was sent to the open conversation; `read` is
/// what its file held, or why it could not be read.
pub open spec fn attach_sent(
    s: AppView,
    d: DraftView,
    read: Result<Seq<u8>, Seq<char>>,
    ts: u64,
    transfer: Seq<u8>,
) -> AppView {
    match current_of(s) {
        None => s,
        Some(f) => match id_of_text(f.pubkey) {
            Err(_) => s,
            Ok(pk) => match read {
                Err(e) => shown(s, "读取附件失败: "@ + e),
                Ok(data) => attach_queued(s, f.pubkey, pk, d, data, ts, transfer),
            },
        },
    }
}

/// The contents of what was read from a file.
pub open spec fn read_view(r: Result<Vec<u8>, String>) -> Result<Seq<u8>, Seq<char>> {
    match r {
        Ok(d) => Ok(d@),
        Err(e) => Err(e@),
    }
}

/// Whether the user is warned before an attachment is sent.
pub open spec fn warns(s: AppView, size: u64) -> bool {
    size > WARN_THRESHOLD && !s.no_warn_large_attach
}

impl App {
    /// Takes in an attachment that was picked. It comes back where it can be
    /// sent at once; a large one is kept until the user confirms it.
    pub fn pick_attach(&mut self, kind: u8, path: String, name: Option<String>, size: u64) -> (r:
        Option<AttachDraft>)
        ensures
            ({
                let d = DraftView {
                    kind,
                    path: path@,
                    name: match name {
                        Some(n) => n@,
                        None => "附件"@,
                    },
                    size,
                };
                if warns(old(self)@, size) {
                    r is None && final(self)@ == (AppView { warn_attach: Some(d), ..old(self)@ })
                } else {
                    draft_view(r) == Some(d) && final(self)@ == old(self)@
                }
            }),
    {
        let name = match name {
            Some(n) => n,
            None => "附件".to_owned(),
        };
        let draft = AttachDraft { kind, path, name, size };
        if size > WARN_THRESHOLD && !self.no_warn_large_attach {
            let ghost d = draft@;
            self.warn_attach = Some(draft);
            assert(self@ =~= AppView { warn_attach: Some(d), ..old(self)@ });
            None
        } else {
            Some(draft)
        }
    }

    /// Takes in the answer to the warning about a large attachment. The
    /// attachment comes back where it is to be sent.
    pub fn resolve_warn(&mut self, choice: WarnChoice) -> (r: Option<AttachDraft>)
        ensures
            ({
                let s = AppView { warn_attach: None, ..old(self)@ };
                &&& draft_view(r) == if choice == WarnChoice::Cancel {
                    None
                } else {
                    old(self)@.warn_attach
                }
                &&& final(self)@ == if choice == WarnChoice::ConfirmNoMore
                    && old(self)@.warn_attach is Some {
                    warnings_set(s, true)
                } else {
                    s
                }
            }),
    {
        let ghost s = AppView { warn_attach: None, ..self@ };
        let mut draft: Option<AttachDraft> = None;
        std::mem::swap(&mut draft, &mut self.warn_attach);
        assert(self@ =~= s);
        match draft {
            Some(d) => match choice {
                WarnChoice::Cancel => None,
                WarnChoice::Confirm => Some(d),
                WarnChoice::ConfirmNoMore => {
                    self.set_no_warn_large(true);
                    Some(d)
                },
            },
            None => None,
        }
    }

    /// Sets whether large attachments are sent without a warning.
    pub fn set_no_warn_large(&mut self, on: bool)
        ensures
            final(self)@ == warnings_set(old(self)@, on),
    {
        self.no_warn_large_attach = on;
        self.act(Action::Configure(ConfigChange::NoWarnLarge(on)));
        assert(self@ =~= warnings_set(old(self)@, on));
    }

    /// Sends an attachment to the open conversation.
    pub fn confirm_send_attach(&mut self, draft: AttachDraft, read: Result<Vec<u8>, String>)
        ensures
            exists|ts: u64, transfer: Seq<u8>|
                transfer.len() == 16 && final(self)@ == #[trigger] attach_sent(
                    old(self)@,
                    draft@,
                    read_view(read),
                    ts,
                    transfer,
                ),
    {
        let transfer: [u8; 16] = random_id16();
        assert(transfer@.len() == 16);
        self.send_attach_at(draft, read, unix_millis(), transfer);
    }

    /// Sends an attachment to the open conversation at a given time and under
    /// a given transfer ID.
    pub fn send_attach_at(
        &mut self,
        draft: AttachDraft,
        read: Result<Vec<u8>, String>,
        ts: u64,
        transfer: [u8; 16],
    )
        ensures
            final(self)@ == attach_sent(old(self)@, draft@, read_view(read), ts, transfer@),
    {
        let key = match self.current_pubkey() {
            Some(k) => k,
            None => {
                return;
            },
        };
        let pk = match id::decode(&key) {
            Ok(p) => p,
            Err(_) => {
                return;
            },
        };
        match read {
            Ok(data) => {
                self.queue_attach(&key, pk, draft, data, ts, transfer);
            },
            Err(e) => {
                let mut line = "读取附件失败: ".to_owned();
                line.append(&e);
                self.push_status(line);
            },
        }
    }

    fn queue_attach(
        &mut self,
        key: &String,
        pk: [u8; 32],
        draft: AttachDraft,
        data: Vec<u8>,
        ts: u64,
        transfer: [u8; 16],
    )
        ensures
            final(self)@ == attach_queued(
                old(self)@,
                key@,
                pk@,
                draft@,
                data@,
                ts,
                transfer@,
            ),
    {
        let ghost s = self@;
        let seq: u32 = take_number(&mut self.next_seq, key);
        let m = UiMsg {
            dir: Dir::Out,
            text: String::new(),
            status: MsgStatus::Sending,
            seq,
            ts,
            kind: kind_of_attach(draft.kind, &draft.name, copy_of(&data)),
            transfer: Some(transfer),
        };
        assert(m@ =~= attach_msg(draft@, data@, seq, ts, transfer@));
        add_msg(&mut self.msgs, key, m);
        let mut text = "[附件 ".to_owned();
        push_decimal(&mut text, draft.kind as u64);
        text.append(" ");
        text.append(&draft.name);
        text.append("]");
        let line = make_sent_line(key, &text);
        self.act(Action::Log { ts, text: line });
        let ghost dv = draft@;
        let ghost bytes = data@;
        let a = Action::Net(
            NetCommand::SendAttach {
                recipient: pk,
                kind: draft.kind,
                name: draft.name,
                data,
                ts,
                transfer,
            },
        );
        assert(a@ =~= ActionView::Net(
            CommandView::SendAttach {
                recipient: pk@,
                kind: dv.kind,
                name: dv.name,
                data: bytes,
                ts,
                transfer: transfer@,
            },
        ));
        self.act(a);
        assert(self@ =~= attach_queued(s, key@, pk@, dv, bytes, ts, transfer@));
    }
}

/// The state after the warning about large attachments was set.
pub open spec fn warnings_set(s: AppView, on: bool) -> AppView {
    acting(
        AppView { no_warn_large_attach: on, ..s },
        ActionView::Configure(ChangeView::NoWarnLarge(on)),
    )
}

} // verus!
