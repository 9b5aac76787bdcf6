//! The chat of the debug mode, line by line in a plain terminal.
//!
//! A line is sent to the current friend. Lines that begin with a slash are
//! commands, and `:nick text` sends to someone else.

use vstd::prelude::*;

use crate::crypto::id::{self, hex_text, id_of_text, show_id, shown_id};
use crate::net::event::{EventView, NetEvent};
use crate::scan::{find_char, find_char_at, lemma_find_char};
use crate::store::friends::{find_friend, friend_views, Friend, FriendStore, FriendView};
use crate::table::{put, Table};
use crate::text::{
    chars_of, decimal, join_texts, joined, padded, push_decimal, push_padded, same_text,
    text_between, texts, trimmed,
};
use crate::tui::app::{next_number, take_number};
use crate::tui::incoming::short_text;
use crate::util::{format_time, shows_clock};

verus! {

// ---------- parsing ----------

/// The first word of a text and what follows the blank after it.
pub open spec fn first_word(s: Seq<char>) -> (Seq<char>, Seq<char>) {
    let i = find_char(s, ' ');
    if i < s.len() {
        (s.take(i), s.skip(i + 1))
    } else {
        (s, Seq::empty())
    }
}

/// Splits off the first word of a text.
pub fn split_word(s: &str) -> (r: (String, String))
    ensures
        (r.0@, r.1@) == first_word(s@),
{
    let c = chars_of(s);
    let i: usize = find_char_at(&c, ' ');
    proof {
        lemma_find_char(c@, ' ');
    }
    if i < c.len() {
        let a = text_between(&c, 0, i);
        let b = text_between(&c, i + 1, c.len());
        assert(a@ =~= s@.take(i as int));
        assert(b@ =~= s@.skip(i + 1));
        (a, b)
    } else {
        (s.to_owned(), String::new())
    }
}

/// The first word of a text and the rest, the blanks around it left out.
pub fn split2(s: &str) -> (r: (String, String))
    ensures
        (r.0@, r.1@) == first_word(trimmed(s@)),
{
    split_word(s.trim())
}

/// The text after the first character.
fn after_first(s: &str) -> (r: String)
    requires
        s@.len() > 0,
    ensures
        r@ == s@.skip(1),
{
    let c = chars_of(s);
    let r = text_between(&c, 1, c.len());
    assert(r@ =~= s@.skip(1));
    r
}

/// The first character of a text.
fn first_char(s: &str) -> (r: char)
    requires
        s@.len() > 0,
    ensures
        r == s@[0],
{
    let c = chars_of(s);
    c[0]
}

// ---------- friends ----------

/// Index of the first friend with a nickname, the length where there is none.
pub open spec fn find_nick(fs: Seq<FriendView>, nickname: Seq<char>) -> int
    decreases fs.len(),
{
    if fs.len() == 0 || fs[0].nickname == nickname {
        0
    } else {
        1 + find_nick(fs.drop_first(), nickname)
    }
}

fn find_nick_at(fs: &Vec<Friend>, nickname: &str) -> (r: usize)
    ensures
        r == find_nick(friend_views(fs@), nickname@),
        r <= fs@.len(),
{
    let ghost all = friend_views(fs@);
    let mut i: usize = 0;
    assert(all.skip(0) =~= all);
    while i < fs.len()
        invariant
            i <= fs@.len(),
            all == friend_views(fs@),
            find_nick(all, nickname@) == i + find_nick(all.skip(i as int), nickname@),
        decreases fs@.len() - i,
    {
        let ghost rest = all.skip(i as int);
        assert(rest[0] == fs@[i as int]@);
        assert(rest.drop_first() =~= all.skip(i + 1));
        if same_text(&fs[i].nickname, nickname) {
            return i;
        }
        i = i + 1;
    }
    i
}

/// What someone is called: the nickname of a friend, else the short user ID.
pub open spec fn name_of(fs: Seq<FriendView>, peer: Seq<u8>) -> Seq<char> {
    let key = hex_text(peer);
    let i = find_friend(fs, key);
    if i < fs.len() {
        fs[i].nickname
    } else {
        shown_id(key)
    }
}

/// What someone is called.
pub fn nick(friends: &FriendStore, pk: &[u8; 32]) -> (r: String)
    ensures
        r@ == name_of(friends@, pk@),
{
    match friends.get(pk) {
        Some(f) => f.nickname,
        None => show_id(&id::encode(*pk)),
    }
}

/// A friend in the list.
pub open spec fn friend_line_text(f: FriendView) -> Seq<char> {
    "  好友 "@ + padded(f.nickname, 12) + " "@ + shown_id(f.pubkey) + " IP["@ + joined(
        f.ips,
        ", "@,
    ) + "]"@
}

/// A friend in the list.
pub fn friend_line(f: &Friend) -> (r: String)
    ensures
        r@ == friend_line_text(f@),
{
    let mut s = "  好友 ".to_owned();
    push_padded(&mut s, &f.nickname, 12);
    s.append(" ");
    s.append(&show_id(&f.pubkey));
    s.append(" IP[");
    s.append(&join_texts(&f.ips, ", "));
    s.append("]");
    s
}

/// The friends, one line each.
pub open spec fn friend_lines(fs: Seq<FriendView>) -> Seq<Seq<char>> {
    Seq::new(fs.len(), |i: int| friend_line_text(fs[i]))
}

fn list_friends(fs: &Vec<Friend>) -> (r: Vec<String>)
    ensures
        texts(r@) == friend_lines(friend_views(fs@)),
{
    let ghost all = friend_lines(friend_views(fs@));
    let mut r: Vec<String> = Vec::new();
    let mut i: usize = 0;
    while i < fs.len()
        invariant
            i <= fs@.len(),
            all == friend_lines(friend_views(fs@)),
            texts(r@) =~= all.take(i as int),
        decreases fs@.len() - i,
    {
        let ghost before = texts(r@);
        let line = friend_line(&fs[i]);
        assert(line@ == all[i as int]);
        r.push(line);
        assert(texts(r@) =~= before.push(all[i as int]));
        i = i + 1;
    }
    assert(all.take(i as int) =~= all);
    r
}

// ---------- turns ----------

/// A message to be handed to the network layer.
pub struct Outgoing {
    pub recipient: [u8; 32],
    pub nickname: String,
    pub content: String,
    pub seq: u32,
}

/// The contents of an [`Outgoing`].
#[verifier::ext_equal]
pub struct OutgoingView {
    pub recipient: Seq<u8>,
    pub nickname: Seq<char>,
    pub content: Seq<char>,
    pub seq: u32,
}

impl View for Outgoing {
    type V = OutgoingView;

    open spec fn view(&self) -> OutgoingView {
        OutgoingView {
            recipient: self.recipient@,
            nickname: self.nickname@,
            content: self.content@,
            seq: self.seq,
        }
    }
}

/// What a line leads to: lines to be printed, a message to be sent, and
/// whether the chat goes on.
pub struct Turn {
    pub lines: Vec<String>,
    pub send: Option<Outgoing>,
    pub go_on: bool,
}

/// The contents of a [`Turn`].
#[verifier::ext_equal]
pub struct TurnView {
    pub lines: Seq<Seq<char>>,
    pub send: Option<OutgoingView>,
    pub go_on: bool,
}

/// The contents of an optional message.
pub open spec fn outgoing_view(o: Option<Outgoing>) -> Option<OutgoingView> {
    match o {
        Some(x) => Some(x@),
        None => None,
    }
}

impl View for Turn {
    type V = TurnView;

    open spec fn view(&self) -> TurnView {
        TurnView { lines: texts(self.lines@), send: outgoing_view(self.send), go_on: self.go_on }
    }
}

/// A turn that prints lines and goes on.
pub open spec fn printing(lines: Seq<Seq<char>>) -> TurnView {
    TurnView { lines, send: None, go_on: true }
}

fn no_lines() -> (r: Vec<String>)
    ensures
        texts(r@) == Seq::<Seq<char>>::empty(),
{
    let r: Vec<String> = Vec::new();
    assert(texts(r@) =~= Seq::<Seq<char>>::empty());
    r
}

fn one_line(s: String) -> (r: Vec<String>)
    ensures
        texts(r@) == seq![s@],
{
    let ghost line = s@;
    let mut r: Vec<String> = Vec::new();
    r.push(s);
    assert(texts(r@) =~= seq![line]);
    r
}

fn print(lines: Vec<String>) -> (r: Turn)
    ensures
        r@ == printing(texts(lines@)),
{
    Turn { lines, send: None, go_on: true }
}

// ---------- the chat ----------

/// The state of the chat: the number of the last message to each friend, and
/// who is being talked to.
pub struct Mirror {
    pub seq: Table<String, u32>,
    pub cur: String,
}

/// The contents of a [`Mirror`].
#[verifier::ext_equal]
pub struct MirrorView {
    pub seq: Seq<(Seq<char>, u32)>,
    pub cur: Seq<char>,
}

impl View for Mirror {
    type V = MirrorView;

    open spec fn view(&self) -> MirrorView {
        MirrorView { seq: self.seq@, cur: self.cur@ }
    }
}

/// What is said where a nickname is not known.
pub open spec fn unknown_nick(nickname: Seq<char>) -> Seq<char> {
    "找不到昵称 "@ + nickname + " 的好友（用 /list 查看）"@
}

/// The state and the turn after something is to be sent to a friend. Blanks
/// around it do not count, and nothing blank is sent.
pub open spec fn sends(
    m: MirrorView,
    fs: Seq<FriendView>,
    nickname: Seq<char>,
    content: Seq<char>,
) -> (MirrorView, TurnView) {
    let text = trimmed(content);
    let i = find_nick(fs, nickname);
    if text.len() == 0 {
        (m, printing(Seq::empty()))
    } else if i >= fs.len() {
        (m, printing(seq!["! "@ + unknown_nick(nickname)]))
    } else {
        match id_of_text(fs[i].pubkey) {
            Err(_) => (m, printing(seq!["! 好友公钥格式无效"@])),
            Ok(pk) => {
                let seq = next_number(m.seq, nickname);
                (
                    MirrorView { seq: put(m.seq, nickname, seq), ..m },
                    TurnView {
                        lines: Seq::empty(),
                        send: Some(
                            OutgoingView { recipient: pk, nickname, content: text, seq },
                        ),
                        go_on: true,
                    },
                )
            },
        }
    }
}

/// The lines of the help.
pub open spec fn help_lines() -> Seq<Seq<char>> {
    seq![
        "命令:"@,
        "  /use <昵称>          切换到当前好友"@,
        "  /to <昵称> <内容>     发送给指定好友"@,
        "  /list               列出好友"@,
        "  /quit                退出"@,
        "  :昵称 <内容>          同 /to"@,
        "其余非 / 开头的输入回车后直接发送给当前好友"@,
    ]
}

/// The state and the turn after a command, without its slash.
pub open spec fn commands(
    m: MirrorView,
    fs: Seq<FriendView>,
    cmd: Seq<char>,
) -> (MirrorView, TurnView) {
    let (name, rest) = first_word(cmd);
    if name == "quit"@ || name == "q"@ {
        (m, TurnView { lines: Seq::empty(), send: None, go_on: false })
    } else if name == "list"@ {
        if fs.len() == 0 {
            (m, printing(seq!["好友列表为空"@]))
        } else {
            (m, printing(friend_lines(fs)))
        }
    } else if name == "use"@ {
        let nick = trimmed(rest);
        if nick.len() == 0 {
            (m, printing(seq!["用法: /use <昵称>"@]))
        } else if find_nick(fs, nick) < fs.len() {
            (MirrorView { cur: nick, ..m }, printing(seq!["当前好友 -> "@ + nick]))
        } else {
            (m, printing(seq![unknown_nick(nick)]))
        }
    } else if name == "to"@ {
        let (nick, content) = first_word(trimmed(rest));
        if nick.len() == 0 || content.len() == 0 {
            (m, printing(seq!["用法: /to <昵称> <内容>"@]))
        } else {
            sends(MirrorView { cur: nick, ..m }, fs, nick, content)
        }
    } else if name == "help"@ {
        (m, printing(help_lines()))
    } else {
        (m, printing(seq!["未知命令: /"@ + name + "（/help 查看帮助）"@]))
    }
}

/// The state and the turn after a line.
pub open spec fn inputs(
    m: MirrorView,
    fs: Seq<FriendView>,
    line: Seq<char>,
) -> (MirrorView, TurnView) {
    let t = trimmed(line);
    if t.len() == 0 {
        (m, printing(Seq::empty()))
    } else if t[0] == '/' {
        commands(m, fs, t.skip(1))
    } else if t[0] == ':' {
        let (nick, content) = first_word(trimmed(t.skip(1)));
        sends(MirrorView { cur: nick, ..m }, fs, nick, content)
    } else if m.cur.len() == 0 {
        (m, printing(seq!["! 还没有可发送的当前好友，用 /use <昵称> 指定"@]))
    } else {
        sends(m, fs, m.cur, t)
    }
}

fn help() -> (r: Vec<String>)
    ensures
        texts(r@) == help_lines(),
{
    let mut r: Vec<String> = Vec::new();
    r.push("命令:".to_owned());
    r.push("  /use <昵称>          切换到当前好友".to_owned());
    r.push("  /to <昵称> <内容>     发送给指定好友".to_owned());
    r.push("  /list               列出好友".to_owned());
    r.push("  /quit                退出".to_owned());
    r.push("  :昵称 <内容>          同 /to".to_owned());
    r.push("其余非 / 开头的输入回车后直接发送给当前好友".to_owned());
    assert(texts(r@) =~= help_lines());
    r
}

fn make_unknown_nick(head: &str, nickname: &str) -> (r: String)
    ensures
        r@ == head@ + unknown_nick(nickname@),
{
    let mut s = head.to_owned();
    s.append("找不到昵称 ");
    s.append(nickname);
    s.append(" 的好友（用 /list 查看）");
    assert(s@ =~= head@ + unknown_nick(nickname@));
    s
}

impl Mirror {
    /// The chat at its start; the first friend is talked to.
    pub fn new(friends: &FriendStore) -> (r: Self)
        ensures
            r@ == (MirrorView {
                seq: Seq::empty(),
                cur: if friends@.len() > 0 {
                    friends@[0].nickname
                } else {
                    Seq::empty()
                },
            }),
    {
        let fs = friends.list();
        assert(friend_views(fs@).len() == fs@.len());
        let cur = if fs.len() > 0 {
            assert(friends@[0] == fs@[0]@);
            fs[0].nickname.clone()
        } else {
            String::new()
        };
        Mirror { seq: Table::new(), cur }
    }

    /// Takes in a line.
    pub fn on_input(&mut self, line: &str, friends: &FriendStore) -> (r: Turn)
        ensures
            (final(self)@, r@) == inputs(old(self)@, friends@, line@),
    {
        let fs = friends.list();
        let t = line.trim();
        if t.is_empty() {
            return print(no_lines());
        }
        let c = first_char(t);
        if c == '/' {
            let cmd = after_first(t);
            return self.on_cmd(&cmd, &fs);
        }
        if c == ':' {
            let rest = after_first(t);
            let (nick, content) = split2(&rest);
            self.cur = nick.clone();
            return self.send(&nick, &content, &fs);
        }
        if self.cur.as_str().is_empty() {
            return print(one_line("! 还没有可发送的当前好友，用 /use <昵称> 指定".to_owned()));
        }
        let target = self.cur.clone();
        self.send(&target, t, &fs)
    }

    /// Carries out a command, without its slash.
    pub fn on_cmd(&mut self, cmd: &str, fs: &Vec<Friend>) -> (r: Turn)
        ensures
            (final(self)@, r@) == commands(old(self)@, friend_views(fs@), cmd@),
    {
        let (name, rest) = split_word(cmd);
        proof {
            lemma_names();
        }
        if same_text(&name, "quit") || same_text(&name, "q") {
            return Turn { lines: no_lines(), send: None, go_on: false };
        }
        if same_text(&name, "list") {
            assert(friend_views(fs@).len() == fs@.len());
            return if fs.len() == 0 {
                print(one_line("好友列表为空".to_owned()))
            } else {
                print(list_friends(fs))
            };
        }
        if same_text(&name, "use") {
            return self.use_friend(&rest, fs);
        }
        if same_text(&name, "to") {
            let (nick, content) = split2(&rest);
            if nick.as_str().is_empty() || content.as_str().is_empty() {
                return print(one_line("用法: /to <昵称> <内容>".to_owned()));
            }
            self.cur = nick.clone();
            return self.send(&nick, &content, fs);
        }
        if same_text(&name, "help") {
            return print(help());
        }
        let mut s = "未知命令: /".to_owned();
        s.append(&name);
        s.append("（/help 查看帮助）");
        print(one_line(s))
    }

    fn use_friend(&mut self, rest: &str, fs: &Vec<Friend>) -> (r: Turn)
        ensures
            ({
                let nick = trimmed(rest@);
                let book = friend_views(fs@);
                (final(self)@, r@) == if nick.len() == 0 {
                    (old(self)@, printing(seq!["用法: /use <昵称>"@]))
                } else if find_nick(book, nick) < book.len() {
                    (
                        (MirrorView { cur: nick, ..old(self)@ }),
                        printing(seq!["当前好友 -> "@ + nick]),
                    )
                } else {
                    (old(self)@, printing(seq![unknown_nick(nick)]))
                }
            }),
    {
        let nick = rest.trim();
        if nick.is_empty() {
            return print(one_line("用法: /use <昵称>".to_owned()));
        }
        if find_nick_at(fs, nick) < fs.len() {
            self.cur = nick.to_owned();
            let mut s = "当前好友 -> ".to_owned();
            s.append(nick);
            print(one_line(s))
        } else {
            let s = make_unknown_nick("", nick);
            proof {
                reveal_strlit("");
                assert(s@ =~= unknown_nick(nick@));
            }
            print(one_line(s))
        }
    }

    fn send(&mut self, nickname: &String, content: &str, fs: &Vec<Friend>) -> (r: Turn)
        ensures
            (final(self)@, r@) == sends(old(self)@, friend_views(fs@), nickname@, content@),
    {
        let ghost m = self@;
        let text = content.trim();
        if text.is_empty() {
            return print(no_lines());
        }
        let i: usize = find_nick_at(fs, nickname);
        assert(friend_views(fs@).len() == fs@.len());
        if i >= fs.len() {
            return print(one_line(make_unknown_nick("! ", nickname)));
        }
        assert(friend_views(fs@)[i as int] == fs@[i as int]@);
        let pk = match id::decode(&fs[i].pubkey) {
            Ok(p) => p,
            Err(_) => {
                return print(one_line("! 好友公钥格式无效".to_owned()));
            },
        };
        let seq: u32 = take_number(&mut self.seq, nickname);
        let o = Outgoing {
            recipient: pk,
            nickname: nickname.clone(),
            content: text.to_owned(),
            seq,
        };
        assert(o@ =~= OutgoingView { recipient: pk@, nickname: nickname@, content: text@, seq });
        let r = Turn { lines: no_lines(), send: Some(o), go_on: true };
        assert(self@ =~= MirrorView { seq: put(m.seq, nickname@, seq), ..m });
        r
    }
}

/// The names of the commands differ.
pub proof fn lemma_names()
    ensures
        "quit"@ != "list"@ && "quit"@ != "use"@ && "quit"@ != "to"@ && "quit"@ != "help"@,
        "q"@ != "list"@ && "q"@ != "use"@ && "q"@ != "to"@ && "q"@ != "help"@,
        "list"@ != "use"@ && "list"@ != "to"@ && "list"@ != "help"@,
        "use"@ != "to"@ && "use"@ != "help"@ && "to"@ != "help"@,
{
    reveal_strlit("quit");
    reveal_strlit("q");
    reveal_strlit("list");
    reveal_strlit("use");
    reveal_strlit("to");
    reveal_strlit("help");
    assert("quit"@[0] == 'q' && "list"@[0] == 'l' && "help"@[0] == 'h');
    assert("quit"@.len() == 4 && "list"@.len() == 4 && "help"@.len() == 4);
    assert("use"@.len() == 3 && "to"@.len() == 2 && "q"@.len() == 1);
}

/// What is printed once a message was handed to the network layer, or could
/// not be.
pub fn sent_text(handed_on: bool, nickname: &str, content: &str) -> (r: String)
    ensures
        r@ == if handed_on {
            ">>> ["@ + nickname@ + "] "@ + content@
        } else {
            "! 消息队列已满"@
        },
{
    if handed_on {
        let mut s = ">>> [".to_owned();
        s.append(nickname);
        s.append("] ");
        s.append(content);
        s
    } else {
        "! 消息队列已满".to_owned()
    }
}

/// The line of the message file for a message that was handed on.
pub fn sent_log(nickname: &str, content: &str) -> (r: String)
    ensures
        r@ == "> "@ + nickname@ + ": "@ + content@,
{
    let mut s = "> ".to_owned();
    s.append(nickname);
    s.append(": ");
    s.append(content);
    s
}

// ---------- events ----------

/// The lines of an event; `time` is the time of a message that came in.
pub open spec fn event_texts(
    e: EventView,
    fs: Seq<FriendView>,
    time: Seq<char>,
) -> Seq<Seq<char>> {
    match e {
        EventView::MessageReceived { peer, content, seq, .. } => seq![
            "<<< "@ + time + " ["@ + decimal(seq as nat) + "] "@ + name_of(fs, peer) + ": "@
                + content,
        ],
        EventView::MessageAcked { peer, seq } => seq![
            "+ 已送达 ["@ + short_text(peer) + " -> "@ + name_of(fs, peer) + "] seq="@ + decimal(
                seq as nat,
            ),
        ],
        EventView::MessageFailed { peer, seq } => seq![
            "- 发送失败 ["@ + name_of(fs, peer) + "] seq="@ + decimal(seq as nat)
                + "（无响应），可在对方恢复后重发或寻址"@,
        ],
        EventView::AddrResult { peer, found, count } => seq![
            "@ 寻址结果: "@ + name_of(fs, peer) + " "@ + if found {
                "命中"@
            } else {
                "未命中"@
            },
            "   已询问 "@ + decimal(count) + " 位共同好友"@,
        ],
        EventView::FriendSeen { peer } => seq!["* 好友在线: "@ + name_of(fs, peer)],
        EventView::Status(line) => seq!["~ "@ + line],
        EventView::AttachReceived { .. } => Seq::empty(),
        EventView::AttachAcked { .. } => Seq::empty(),
        EventView::AttachFailed { .. } => Seq::empty(),
    }
}

/// The lines of an event.
pub fn on_event(ev: &NetEvent, friends: &FriendStore) -> (r: Vec<String>)
    ensures
        exists|time: Seq<char>|
            (ev@ matches EventView::MessageReceived { ts, .. } ==> shows_clock(ts, time))
                && texts(r@) == #[trigger] event_texts(ev@, friends@, time),
{
    let time = match ev {
        NetEvent::MessageReceived { ts, .. } => format_time(*ts),
        _ => String::new(),
    };
    event_lines(ev, friends, &time)
}

/// The lines of an event; `time` is the time of a message that came in.
pub fn event_lines(ev: &NetEvent, friends: &FriendStore, time: &str) -> (r: Vec<String>)
    ensures
        texts(r@) == event_texts(ev@, friends@, time@),
{
    match ev {
        NetEvent::MessageReceived { from, content, seq, .. } => {
            let mut s = "<<< ".to_owned();
            s.append(time);
            s.append(" [");
            push_decimal(&mut s, *seq as u64);
            s.append("] ");
            s.append(&nick(friends, from));
            s.append(": ");
            s.append(content);
            one_line(s)
        },
        NetEvent::MessageAcked { to, seq } => {
            let mut s = "+ 已送达 [".to_owned();
            s.append(&id::short(to));
            s.append(" -> ");
            s.append(&nick(friends, to));
            s.append("] seq=");
            push_decimal(&mut s, *seq as u64);
            one_line(s)
        },
        NetEvent::MessageFailed { to, seq } => {
            let mut s = "- 发送失败 [".to_owned();
            s.append(&nick(friends, to));
            s.append("] seq=");
            push_decimal(&mut s, *seq as u64);
            s.append("（无响应），可在对方恢复后重发或寻址");
            one_line(s)
        },
        NetEvent::AddrResult { target, found, count } => {
            let mut s = "@ 寻址结果: ".to_owned();
            s.append(&nick(friends, target));
            s.append(" ");
            if *found {
                s.append("命中");
            } else {
                s.append("未命中");
            }
            let mut t = "   已询问 ".to_owned();
            push_decimal(&mut t, *count as u64);
            t.append(" 位共同好友");
            let ghost b = t@;
            let mut r = one_line(s);
            let ghost before = texts(r@);
            r.push(t);
            assert(texts(r@) =~= before.push(b));
            assert(texts(r@) =~= event_texts(ev@, friends@, time@));
            r
        },
        NetEvent::FriendSeen { id } => {
            let mut s = "* 好友在线: ".to_owned();
            s.append(&nick(friends, id));
            one_line(s)
        },
        NetEvent::Status(line) => {
            let mut s = "~ ".to_owned();
            s.append(line);
            one_line(s)
        },
        NetEvent::AttachReceived { .. } => no_lines(),
        NetEvent::AttachAcked { .. } => no_lines(),
        NetEvent::AttachFailed { .. } => no_lines(),
    }
}

// ---------- the greeting ----------

/// What is printed at the start, between the first line and the last one.
pub open spec fn greeting_texts(fs: Seq<FriendView>, cur: Seq<char>) -> Seq<Seq<char>> {
    if fs.len() == 0 {
        seq!["! 当前没有好友，请先用 `friend add <昵称> <对方公钥> <对方IP[:端口]>` 添加"@]
    } else {
        friend_lines(fs).push("  当前好友: "@ + cur)
    }
}

/// What is printed at the start about the friends.
pub fn greeting(friends: &FriendStore, cur: &str) -> (r: Vec<String>)
    ensures
        texts(r@) == greeting_texts(friends@, cur@),
{
    let fs = friends.list();
    assert(friend_views(fs@).len() == fs@.len());
    if fs.len() == 0 {
        return one_line(
            "! 当前没有好友，请先用 `friend add <昵称> <对方公钥> <对方IP[:端口]>` 添加".to_owned(),
        );
    }
    let mut s = "  当前好友: ".to_owned();
    s.append(cur);
    let ghost line = s@;
    let mut r = list_friends(&fs);
    let ghost before = texts(r@);
    r.push(s);
    assert(texts(r@) =~= before.push(line));
    r
}

} // verus!
