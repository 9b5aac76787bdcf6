//! Accounts and friends as they are managed from the command line.

use vstd::prelude::*;
use vstd::utf8::encode_utf8;

use crate::bytes::{array_at, same_array};
use crate::config::{Config, ConfigView, DEFAULT_PORT};
use crate::crypto::id::{self, hex_text, hex_value, id_of_text, show_id, shown_id};
use crate::crypto::keys::Identity;
use crate::crypto::primitives;
use crate::net::ip::ip_port_text;
use crate::net::socket::{fmt_addr, parse_sockaddr, parsed_addr};
use crate::store::friends::{
    befriended, find_friend, has_friend, lemma_find_friend, Friend, FriendStore, FriendView,
};
use crate::text::{
    decimal, join_texts, joined, padded, push_decimal, push_padded, same_text, texts, trimmed,
};
use crate::tui::ui::{addresses, addresses_text};

verus! {

// ---------- overlap ----------

/// The nicknames of the friends with a user ID.
pub open spec fn names_of(fs: Seq<FriendView>, key: Seq<char>) -> Seq<Seq<char>>
    decreases fs.len(),
{
    if fs.len() == 0 {
        Seq::empty()
    } else {
        let front = names_of(fs.drop_last(), key);
        if fs.last().pubkey == key {
            front.push(fs.last().nickname)
        } else {
            front
        }
    }
}

/// Our own account is among our friends, under these names.
#[derive(Debug)]
pub struct Overlap {
    pub names: Vec<String>,
}

impl Overlap {
    pub fn message(&self) -> (r: String)
        ensures
            r@ == overlap_text(texts(self.names@)),
    {
        let mut s = "检测到身份重叠：本机账户公钥与好友列表中的「".to_owned();
        s.append(&join_texts(&self.names, "、"));
        s.append("」相同。同一身份不能同时是自己和好友，请确认数据目录/种子是否正确。");
        s
    }
}

/// What is said where our own account is among our friends.
pub open spec fn overlap_text(names: Seq<Seq<char>>) -> Seq<char> {
    "检测到身份重叠：本机账户公钥与好友列表中的「"@ + joined(names, "、"@)
        + "」相同。同一身份不能同时是自己和好友，请确认数据目录/种子是否正确。"@
}

/// Checks that our own account is not among our friends.
pub fn check_overlap(friends: &FriendStore, own_pub: &[u8; 32]) -> (r: Result<(), Overlap>)
    ensures
        r is Err <==> has_friend(friends@, own_pub@),
        r matches Err(e) ==> texts(e.names@) == names_of(friends@, hex_text(own_pub@)),
{
    let key = id::encode(*own_pub);
    let ghost fs = friends@;
    let mut names: Vec<String> = Vec::new();
    let mut i: usize = 0;
    assert(texts(names@) =~= Seq::<Seq<char>>::empty());
    while i < friends.data.friends.len()
        invariant
            i <= friends.data.friends@.len(),
            fs == friends@,
            key@ == hex_text(own_pub@),
            texts(names@) == names_of(fs.take(i as int), key@),
        decreases friends.data.friends@.len() - i,
    {
        assert(fs.take(i + 1).drop_last() =~= fs.take(i as int));
        assert(fs.take(i + 1).last() == friends.data.friends@[i as int]@);
        if same_text(&friends.data.friends[i].pubkey, &key) {
            let ghost before = texts(names@);
            names.push(friends.data.friends[i].nickname.clone());
            assert(texts(names@) =~= before.push(friends.data.friends@[i as int].nickname@));
        }
        i = i + 1;
    }
    assert(fs.take(i as int) =~= fs);
    proof {
        lemma_names_of(fs, key@);
        assert(texts(names@).len() == names@.len());
    }
    if names.len() > 0 {
        Err(Overlap { names })
    } else {
        Ok(())
    }
}

/// There is a name exactly where there is a friend.
proof fn lemma_names_of(fs: Seq<FriendView>, key: Seq<char>)
    ensures
        names_of(fs, key).len() > 0 <==> find_friend(fs, key) < fs.len(),
    decreases fs.len(),
{
    lemma_find_friend(fs, key);
    if fs.len() > 0 {
        let t = fs.drop_last();
        lemma_names_of(t, key);
        lemma_find_friend(t, key);
        let i = find_friend(fs, key);
        let j = find_friend(t, key);
        if j < t.len() {
            assert(fs[j].pubkey == key);
        }
        if i < t.len() {
            assert(t[i].pubkey == key);
        }
        if i == t.len() {
            assert(fs.last().pubkey == key);
        }
        if fs.last().pubkey == key {
            assert(fs[fs.len() - 1].pubkey == key);
        }
    }
}

// ---------- changing the account ----------

/// Why an account is not taken over.
#[derive(Debug)]
pub enum ImportError {
    /// The seed is not hexadecimal.
    Hex,
    /// The seed has this many bytes instead of 32.
    Length(usize),
    /// The account is among the friends.
    Overlap(Overlap),
    /// The account is the current one.
    Same,
}

impl ImportError {
    pub open spec fn text(self) -> Seq<char> {
        match self {
            ImportError::Hex => "种子应为 64 位 hex（即 init 输出的“种子备份”）"@,
            ImportError::Length(n) => "种子应为 32 字节（64 位 hex），实际 "@ + decimal(n as nat) + " 字节"@,
            ImportError::Overlap(o) => overlap_text(texts(o.names@)),
            ImportError::Same => "该种子就是当前身份，无需导入"@,
        }
    }

    pub fn message(&self) -> (r: String)
        ensures
            r@ == self.text(),
    {
        match self {
            ImportError::Hex => "种子应为 64 位 hex（即 init 输出的“种子备份”）".to_owned(),
            ImportError::Length(n) => {
                let mut s = "种子应为 32 字节（64 位 hex），实际 ".to_owned();
                push_decimal(&mut s, *n as u64);
                s.append(" 字节");
                s
            },
            ImportError::Overlap(o) => o.message(),
            ImportError::Same => "该种子就是当前身份，无需导入".to_owned(),
        }
    }
}

/// The identity of a seed, where it may be taken over: it is not among the
/// friends, and it is not the current one.
pub fn import_account(
    seed_hex: &str,
    friends: &FriendStore,
    current: Option<&Identity>,
) -> (r: Result<Identity, ImportError>)
    ensures
        match hex_value(encode_utf8(trimmed(seed_hex@))) {
            None => r matches Err(ImportError::Hex),
            Some(seed) => if seed.len() != 32 {
                r matches Err(ImportError::Length(n)) && n == seed.len()
            } else {
                let key = primitives::ed25519_public(seed);
                if has_friend(friends@, key) {
                    r matches Err(ImportError::Overlap(o)) && texts(o.names@) == names_of(
                        friends@,
                        hex_text(key),
                    )
                } else if current matches Some(c) && c.ed_pub@ == key {
                    r matches Err(ImportError::Same)
                } else {
                    r matches Ok(i) && i.wf() && i.seed@ == seed
                }
            },
        },
{
    let bytes = match id::hex_decode(seed_hex.trim().as_bytes()) {
        Ok(b) => b,
        Err(_) => {
            return Err(ImportError::Hex);
        },
    };
    if bytes.len() != 32 {
        return Err(ImportError::Length(bytes.len()));
    }
    let seed: [u8; 32] = array_at::<32>(&bytes, 0);
    assert(seed@ =~= bytes@);
    let identity = Identity::from_seed(seed);
    match check_overlap(friends, &identity.ed_pub) {
        Err(o) => {
            return Err(ImportError::Overlap(o));
        },
        Ok(_) => {},
    }
    match current {
        Some(old) => {
            if same_array(&old.ed_pub, &identity.ed_pub) {
                return Err(ImportError::Same);
            }
        },
        None => {},
    }
    Ok(identity)
}

// ---------- friends ----------

/// Why a friend is not added.
#[derive(Clone, Copy, Debug, PartialEq, Eq, Structural)]
pub enum AddError {
    Pubkey,
    Ip,
    Duplicate,
}

impl AddError {
    pub open spec fn text(self) -> Seq<char> {
        match self {
            AddError::Pubkey => "公钥格式错误（应为 64 位 hex，即对方用户 ID）"@,
            AddError::Ip => "IP 格式错误（支持 ip / ip:port / [v6]:port）"@,
            AddError::Duplicate => "该公钥已存在好友列表中"@,
        }
    }

    pub fn message(&self) -> (r: String)
        ensures
            r@ == self.text(),
    {
        match self {
            AddError::Pubkey => "公钥格式错误（应为 64 位 hex，即对方用户 ID）".to_owned(),
            AddError::Ip => "IP 格式错误（支持 ip / ip:port / [v6]:port）".to_owned(),
            AddError::Duplicate => "该公钥已存在好友列表中".to_owned(),
        }
    }
}

/// What adding a friend by a user ID and an address gives: the new list and
/// the address as it is kept, which always has a port.
pub open spec fn friend_added(
    fs: Seq<FriendView>,
    nickname: Seq<char>,
    pubkey: Seq<char>,
    ip: Seq<char>,
) -> Result<(Seq<FriendView>, Seq<char>), AddError> {
    match id_of_text(pubkey) {
        Err(_) => Err(AddError::Pubkey),
        Ok(pk) => match parsed_addr(ip, DEFAULT_PORT) {
            None => Err(AddError::Ip),
            Some(a) => {
                let stored = ip_port_text(a.ip(), a.port());
                if has_friend(fs, pk) {
                    Err(AddError::Duplicate)
                } else {
                    Ok((befriended(fs, nickname, pk, Some(stored)), stored))
                }
            },
        },
    }
}

/// Adds a friend by a user ID and an address.
pub fn add_friend(friends: &mut FriendStore, nickname: &str, pubkey: &str, ip: &str) -> (r: Result<
    String,
    AddError,
>)
    ensures
        match friend_added(old(friends)@, nickname@, pubkey@, ip@) {
            Ok((fs, stored)) => {
                &&& r matches Ok(t) && t@ == stored
                &&& final(friends)@ == fs
                &&& final(friends).unsaved
            },
            Err(e) => {
                &&& r matches Err(x) && x == e
                &&& *final(friends) == *old(friends)
            },
        },
{
    let pk = match id::decode(pubkey) {
        Ok(p) => p,
        Err(_) => {
            return Err(AddError::Pubkey);
        },
    };
    let stored = match parse_sockaddr(ip, DEFAULT_PORT) {
        Ok(a) => fmt_addr(a),
        Err(_) => {
            return Err(AddError::Ip);
        },
    };
    match friends.add(nickname.to_owned(), pk, Some(stored.clone())) {
        Ok(_) => Ok(stored),
        Err(_) => Err(AddError::Duplicate),
    }
}

/// A friend in the list; `seen` is when it was last seen.
pub open spec fn listed(f: FriendView, seen: Seq<char>) -> Seq<char> {
    padded(f.nickname, 12) + " "@ + padded(shown_id(f.pubkey), 16) + " IP["@ + addresses_text(f)
        + "] 最近在线 "@ + seen
}

/// A friend in the list; `seen` is when it was last seen, `None` for never.
pub fn list_line(f: &Friend, seen: Option<&str>) -> (r: String)
    ensures
        r@ == listed(
            f@,
            match seen {
                Some(t) => t@,
                None => "-"@,
            },
        ),
{
    let mut s = String::new();
    push_padded(&mut s, &f.nickname, 12);
    s.append(" ");
    push_padded(&mut s, &show_id(&f.pubkey), 16);
    s.append(" IP[");
    s.append(&addresses(f));
    s.append("] 最近在线 ");
    match seen {
        Some(t) => s.append(t),
        None => s.append("-"),
    }
    assert(s@ =~= listed(
        f@,
        match seen {
            Some(t) => t@,
            None => "-"@,
        },
    ));
    s
}

// ---------- starting ----------

/// The configuration of a run: options of the command line take precedence
/// over the file.
pub fn start_config(cfg: Config, port: Option<u16>, auto_addr: bool) -> (r: Config)
    ensures
        r@ == (ConfigView {
            port: match port {
                Some(p) => p,
                None => cfg@.port,
            },
            auto_addressing: cfg@.auto_addressing || auto_addr,
            ..cfg@
        }),
{
    let mut cfg = cfg;
    match port {
        Some(p) => {
            cfg.port = p;
        },
        None => {},
    }
    if auto_addr {
        cfg.auto_addressing = true;
    }
    cfg
}

} // verus!
