//! How a second process hands a link to the running client, over a local
//! port that the data directory decides.

use vstd::prelude::*;

use crate::crypto::id::{self, id_of_text};
use crate::net::socket::port_of;
use crate::store::friends::{befriended, has_friend, FriendStore, FriendView};
use crate::text::{chars_of, opt_text, same_text, trimmed};

verus! {

/// The lowest local port.
pub const IPC_BASE: u16 = 9100;

/// How many ports a data directory may lead to.
pub const IPC_RANGE: u16 = 2000;

/// How many ports are tried from the first one on.
pub const PORT_SCAN: u16 = 16;

// ---------- ports ----------

/// The 32-bit FNV-1a hash.
pub open spec fn fnv1a(b: Seq<u8>) -> u32
    decreases b.len(),
{
    if b.len() == 0 {
        0x811c_9dc5
    } else {
        (((fnv1a(b.drop_last()) ^ (b.last() as u32)) * 0x0100_0193) % 0x1_0000_0000) as u32
    }
}

/// The first port of a data directory, by the bytes of its path.
pub open spec fn base_port(root: Seq<u8>) -> int {
    IPC_BASE + fnv1a(root) as int % IPC_RANGE as int
}

/// Each byte takes the hash one step on: it is mixed into the low bits, and
/// the whole is multiplied by the 32-bit FNV prime.
pub proof fn law_fnv1a(b: Seq<u8>, x: u8)
    ensures
        fnv1a(Seq::<u8>::empty()) == 2_166_136_261,
        fnv1a(b.push(x)) == ((fnv1a(b) ^ (x as u32)) * 16_777_619) % 4_294_967_296,
        9100 <= base_port(b) < 11_100,
        (base_port(b) - 9100) % 2000 == fnv1a(b) % 2000,
{
    assert(b.push(x).drop_last() =~= b);
}

/// The first local port of a data directory. It lies in `9100..=11099`.
pub fn ipc_base_port(root: &[u8]) -> (r: u16)
    ensures
        r == base_port(root@),
        9100 <= r <= 11099,
{
    let mut h: u32 = 0x811c_9dc5;
    let mut i: usize = 0;
    while i < root.len()
        invariant
            i <= root@.len(),
            h == fnv1a(root@.take(i as int)),
        decreases root@.len() - i,
    {
        h = h ^ (root[i] as u32);
        h = h.wrapping_mul(0x0100_0193);
        i = i + 1;
        assert(root@.take(i as int).drop_last() =~= root@.take(i - 1));
    }
    assert(root@.take(i as int) =~= root@);
    IPC_BASE + (h % (IPC_RANGE as u32)) as u16
}

/// The port that is tried as number `d` from a first one; after the highest
/// port comes the lowest.
pub fn port_at(base: u16, d: u16) -> (r: u16)
    ensures
        r == (base + d) % 0x1_0000,
{
    base.wrapping_add(d)
}

/// Reads the port that the running client wrote down.
pub fn read_port(text: &str) -> (r: Option<u16>)
    ensures
        r is Some <==> port_of(trimmed(text@)) is Some,
        r matches Some(n) ==> port_of(trimmed(text@)) == Some(n as nat),
{
    crate::net::socket::read_port(&chars_of(text.trim()))
}

// ---------- requests ----------

/// A request to the running client.
pub struct Msg {
    pub cmd: String,
    pub nickname: Option<String>,
    pub pubkey: Option<String>,
    pub ip: Option<String>,
}

/// The contents of a [`Msg`].
#[verifier::ext_equal]
pub struct MsgView {
    pub cmd: Seq<char>,
    pub nickname: Option<Seq<char>>,
    pub pubkey: Option<Seq<char>>,
    pub ip: Option<Seq<char>>,
}

impl View for Msg {
    type V = MsgView;

    open spec fn view(&self) -> MsgView {
        MsgView {
            cmd: self.cmd@,
            nickname: opt_text(self.nickname),
            pubkey: opt_text(self.pubkey),
            ip: opt_text(self.ip),
        }
    }
}

/// The request to add a friend.
pub fn add_friend_msg(nickname: &str, pubkey: &str, ip: Option<&str>) -> (r: Msg)
    ensures
        r@ == (MsgView {
            cmd: "add_friend"@,
            nickname: Some(nickname@),
            pubkey: Some(pubkey@),
            ip: match ip {
                Some(t) => Some(t@),
                None => None,
            },
        }),
{
    Msg {
        cmd: "add_friend".to_owned(),
        nickname: Some(nickname.to_owned()),
        pubkey: Some(pubkey.to_owned()),
        ip: match ip {
            Some(t) => Some(t.to_owned()),
            None => None,
        },
    }
}

/// The request to talk to a friend.
pub fn talk_msg(pubkey: &str) -> (r: Msg)
    ensures
        r@ == (MsgView { cmd: "talk"@, nickname: None, pubkey: Some(pubkey@), ip: None }),
{
    Msg { cmd: "talk".to_owned(), nickname: None, pubkey: Some(pubkey.to_owned()), ip: None }
}

// ---------- replies ----------

/// The reply to a request, and what the user of the running client is shown.
pub struct Reply {
    pub text: String,
    pub status: Option<String>,
}

/// The contents of a [`Reply`], and the friend list after the request.
#[verifier::ext_equal]
pub struct Outcome {
    pub text: Seq<char>,
    pub status: Option<Seq<char>>,
    pub book: Seq<FriendView>,
}

/// What a request does.
pub open spec fn outcome(m: MsgView, book: Seq<FriendView>) -> Outcome {
    match m.pubkey {
        None => Outcome { text: "err: 缺少 pubkey"@, status: None, book },
        Some(k) => match id_of_text(k) {
            Err(_) => Outcome { text: "err: pubkey 不是有效的 64 位 hex"@, status: None, book },
            Ok(pk) => if m.cmd == "add_friend"@ {
                let nickname = match m.nickname {
                    Some(n) => n,
                    None => Seq::empty(),
                };
                if has_friend(book, pk) {
                    Outcome {
                        text: "already"@,
                        status: Some("链接里的好友 "@ + nickname + " 已存在"@),
                        book,
                    }
                } else {
                    Outcome {
                        text: "ok"@,
                        status: Some("通过链接添加了好友 "@ + nickname),
                        book: befriended(book, nickname, pk, m.ip),
                    }
                }
            } else if m.cmd == "talk"@ {
                if has_friend(book, pk) {
                    Outcome { text: "ok"@, status: Some("链接已定位到好友，开始聊天吧"@), book }
                } else {
                    Outcome {
                        text: "err: not-friend"@,
                        status: Some("链接指向的用户还不是好友"@),
                        book,
                    }
                }
            } else {
                Outcome { text: "err: 未知命令 "@ + m.cmd, status: None, book }
            },
        },
    }
}

fn plain_reply(text: &str) -> (r: Reply)
    ensures
        r.text@ == text@,
        r.status is None,
{
    Reply { text: text.to_owned(), status: None }
}

fn shown_reply(text: &str, status: &str) -> (r: Reply)
    ensures
        r.text@ == text@,
        opt_text(r.status) == Some(status@),
{
    Reply { text: text.to_owned(), status: Some(status.to_owned()) }
}

/// Carries out a request.
pub fn handle_msg(msg: Msg, friends: &mut FriendStore) -> (r: Reply)
    ensures
        (Outcome { text: r.text@, status: opt_text(r.status), book: final(friends)@ }) == outcome(
            msg@,
            old(friends)@,
        ),
        final(friends)@ != old(friends)@ ==> final(friends).unsaved,
{
    let pk = match &msg.pubkey {
        Some(k) => match id::decode(k) {
            Ok(p) => p,
            Err(_) => {
                return plain_reply("err: pubkey 不是有效的 64 位 hex");
            },
        },
        None => {
            return plain_reply("err: 缺少 pubkey");
        },
    };
    proof {
        reveal_strlit("add_friend");
        reveal_strlit("talk");
    }
    if same_text(&msg.cmd, "add_friend") {
        let nickname = match msg.nickname {
            Some(n) => n,
            None => String::new(),
        };
        if friends.contains(&pk) {
            let mut s = "链接里的好友 ".to_owned();
            s.append(&nickname);
            s.append(" 已存在");
            return shown_reply("already", &s);
        }
        let mut s = "通过链接添加了好友 ".to_owned();
        s.append(&nickname);
        match friends.add(nickname, pk, msg.ip) {
            Ok(_) => shown_reply("ok", &s),
            Err(e) => {
                let mut t = "err: ".to_owned();
                t.append(&e.message());
                plain_reply(&t)
            },
        }
    } else if same_text(&msg.cmd, "talk") {
        if friends.contains(&pk) {
            shown_reply("ok", "链接已定位到好友，开始聊天吧")
        } else {
            shown_reply("err: not-friend", "链接指向的用户还不是好友")
        }
    } else {
        let mut s = "err: 未知命令 ".to_owned();
        s.append(&msg.cmd);
        plain_reply(&s)
    }
}

/// What a forwarded request came back with; `None` where no line could be
/// read. An empty line counts as success.
pub fn reply_of(line: Option<&str>) -> (r: String)
    ensures
        match line {
            None => r@ == "err: 转发后未收到回复"@,
            Some(t) => r@ == if trimmed(t@).len() == 0 {
                "ok"@
            } else {
                trimmed(t@)
            },
        },
{
    match line {
        None => "err: 转发后未收到回复".to_owned(),
        Some(t) => {
            let s = t.trim();
            if s.is_empty() {
                "ok".to_owned()
            } else {
                s.to_owned()
            }
        },
    }
}

} // verus!
