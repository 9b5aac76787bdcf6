//! The texts that the interfaces show.

use vstd::prelude::*;

use crate::crypto::id::{show_id, shown_id};
use crate::store::friends::{Friend, FriendView};
use crate::text::{decimal, join_texts, joined, push_decimal};
use crate::tui::app::{current_of, App, AppView, Dir, MsgStatus, UiMsg, UiMsgView};

verus! {

/// Milliseconds for which a friend counts as online after it was seen.
pub const ONLINE_MILLIS: u64 = 300_000;

/// Whether a friend counts as online.
pub open spec fn is_online(f: FriendView, now: u64) -> bool {
    f.last_seen matches Some(ts) && now < ts + ONLINE_MILLIS
}

/// Whether a friend counts as online.
pub fn online(f: &Friend, now: u64) -> (r: bool)
    ensures
        r == is_online(f@, now),
{
    match f.last_seen {
        Some(ts) => now.saturating_sub(ts) < ONLINE_MILLIS,
        None => false,
    }
}

/// The mark of messages that came in from a friend; empty where there are
/// none.
pub fn unread_badge(unread: usize) -> (r: String)
    ensures
        r@ == if unread > 0 {
            " [未读 "@ + decimal(unread as nat) + "]"@
        } else {
            Seq::empty()
        },
{
    if unread > 0 {
        let mut s = " [未读 ".to_owned();
        push_decimal(&mut s, unread as u64);
        s.append("]");
        s
    } else {
        String::new()
    }
}

/// The title of the open conversation.
pub open spec fn title_text(s: AppView) -> Seq<char> {
    match current_of(s) {
        Some(f) => " 与 "@ + f.nickname + "（"@ + shown_id(f.pubkey) + "）的聊天 "@,
        None => " 聊天（尚未选择好友） "@,
    }
}

/// The title of the open conversation.
pub fn chat_title(app: &App) -> (r: String)
    ensures
        r@ == title_text(app@),
{
    match app.current() {
        Some(f) => {
            let mut s = " 与 ".to_owned();
            s.append(&f.nickname);
            s.append("（");
            s.append(&show_id(&f.pubkey));
            s.append("）的聊天 ");
            s
        },
        None => " 聊天（尚未选择好友） ".to_owned(),
    }
}

/// Who a message of the open conversation is from.
pub fn sender_name(app: &App, m: &UiMsg) -> (r: String)
    ensures
        r@ == match m@.dir {
            Dir::Out => app@.own_short,
            Dir::In => match current_of(app@) {
                Some(f) => f.nickname,
                None => "对方"@,
            },
        },
{
    match m.dir {
        Dir::Out => app.own_short.clone(),
        Dir::In => match app.current() {
            Some(f) => f.nickname.clone(),
            None => "对方".to_owned(),
        },
    }
}

/// What stands before a message: its time and who it is from.
pub fn message_head(time: &str, who: &str) -> (r: String)
    ensures
        r@ == "["@ + time@ + "] "@ + who@ + ": "@,
{
    let mut s = "[".to_owned();
    s.append(time);
    s.append("] ");
    s.append(who);
    s.append(": ");
    s
}

/// The mark of a message that was sent.
pub fn status_mark(status: MsgStatus) -> (r: String)
    ensures
        r@ == match status {
            MsgStatus::Sending => " …"@,
            MsgStatus::Sent => " ✓"@,
            MsgStatus::Failed => " ✗ [失败]"@,
        },
{
    match status {
        MsgStatus::Sending => " …".to_owned(),
        MsgStatus::Sent => " ✓".to_owned(),
        MsgStatus::Failed => " ✗ [失败]".to_owned(),
    }
}

/// The status line: the last status, and whether addresses are asked for
/// automatically.
pub open spec fn status_text(s: AppView) -> Seq<char> {
    let last = if s.status.len() > 0 {
        s.status.last()
    } else {
        Seq::empty()
    };
    if s.auto_addr {
        " "@ + last + "  [自动寻址:开]"@
    } else {
        " "@ + last
    }
}

/// The status line.
pub fn status_line(app: &App) -> (r: String)
    ensures
        r@ == status_text(app@),
{
    let mut s = " ".to_owned();
    let n: usize = app.status.len();
    assert(app@.status.len() == n);
    if n > 0 {
        s.append(&app.status[n - 1]);
        assert(app@.status.last() == app.status@[n - 1]@);
    }
    if app.auto_addr {
        s.append("  [自动寻址:开]");
    }
    assert(s@ =~= status_text(app@));
    s
}

/// The help line, empty where it is hidden.
pub fn help_line(app: &App) -> (r: String)
    ensures
        r@ == if app@.show_help {
            "  Enter发送 Ctrl+P/N切换 Ctrl+F寻址 Ctrl+R重发 Ctrl+Q退出"@
        } else {
            Seq::empty()
        },
{
    if app.show_help {
        "  Enter发送 Ctrl+P/N切换 Ctrl+F寻址 Ctrl+R重发 Ctrl+Q退出".to_owned()
    } else {
        String::new()
    }
}

/// The index of the first of the last `rows` messages.
pub fn first_visible(count: usize, rows: usize) -> (r: usize)
    ensures
        r == if count > rows {
            count - rows
        } else {
            0
        },
{
    if count > rows {
        count - rows
    } else {
        0
    }
}

/// The addresses of a friend, a dash where there are none.
pub open spec fn addresses_text(f: FriendView) -> Seq<char> {
    if f.ips.len() == 0 {
        "-"@
    } else {
        joined(f.ips, ", "@)
    }
}

/// The addresses of a friend, a dash where there are none.
pub fn addresses(f: &Friend) -> (r: String)
    ensures
        r@ == addresses_text(f@),
{
    if f.ips.len() == 0 {
        "-".to_owned()
    } else {
        join_texts(&f.ips, ", ")
    }
}

// ---------- the graphical interface ----------

/// A friend in the list: the nickname and the short user ID.
pub fn friend_head(f: &Friend) -> (r: String)
    ensures
        r@ == f@.nickname + " · "@ + shown_id(f@.pubkey),
{
    let mut s = f.nickname.clone();
    s.append(" · ");
    s.append(&show_id(&f.pubkey));
    s
}

/// A friend in the narrow list: the nickname with the number of messages that
/// came in, and the short user ID below it.
pub open spec fn narrow_text(f: FriendView, unread: nat) -> Seq<char> {
    let head = if unread > 0 {
        f.nickname + " · 未读 "@ + decimal(unread)
    } else {
        f.nickname
    };
    head + "\n"@ + shown_id(f.pubkey)
}

/// A friend in the narrow list.
pub fn narrow_head(f: &Friend, unread: usize) -> (r: String)
    ensures
        r@ == narrow_text(f@, unread as nat),
{
    let mut s = f.nickname.clone();
    if unread > 0 {
        s.append(" · 未读 ");
        push_decimal(&mut s, unread as u64);
    }
    s.append("\n");
    s.append(&show_id(&f.pubkey));
    s
}

/// What stands above a message: its time, who it is from and what became of
/// it.
pub open spec fn bubble_text(s: AppView, m: UiMsgView, time: Seq<char>) -> Seq<char> {
    let who = match m.dir {
        Dir::Out => "我"@,
        Dir::In => match current_of(s) {
            Some(f) => f.nickname,
            None => "对方"@,
        },
    };
    let mark = match m.status {
        MsgStatus::Sending => " ↑送中"@,
        MsgStatus::Sent => Seq::empty(),
        MsgStatus::Failed => " ✗失败"@,
    };
    time + " "@ + who + mark
}

/// What stands above a message.
pub fn bubble_head(app: &App, m: &UiMsg, time: &str) -> (r: String)
    ensures
        r@ == bubble_text(app@, m@, time@),
{
    let mut s = time.to_owned();
    s.append(" ");
    match m.dir {
        Dir::Out => s.append("我"),
        Dir::In => match app.current() {
            Some(f) => s.append(&f.nickname),
            None => s.append("对方"),
        },
    }
    match m.status {
        MsgStatus::Sending => s.append(" ↑送中"),
        MsgStatus::Sent => {},
        MsgStatus::Failed => s.append(" ✗失败"),
    }
    assert(s@ =~= bubble_text(app@, m@, time@));
    s
}

} // verus!
