//! `kokonachat://` links, which bring up the client to add a friend or to
//! talk to one.
//!
//! ```text
//! kokonachat://add?nickname=<percent encoded>&pubkey=<64 hex digits>&ip=<ip[:port]>
//! kokonachat://talk?pubkey=<64 hex digits>
//! ```

pub mod laws;
pub mod percent;

use vstd::prelude::*;

use crate::config::{Config, DEFAULT_PORT};
use crate::crypto::id::{self, hex_text, id_of_text, show_id, shown_id, IdError};
use crate::deeplink::percent::{
    find_param, param_value, params_of, parse_query, pct_encode, pct_encoded,
};
use crate::net::ip::ip_port_text;
use crate::net::socket::{fmt_addr, parse_sockaddr, parsed_addr};
use crate::scan::{find_char, find_char_at, lemma_find_char};
use crate::text::{chars_of, opt_text, same_text, text_between, texts, trimmed};

verus! {

/// The scheme of the links.
pub const SCHEME: &'static str = "kokonachat";

/// What a link asks for.
#[derive(Debug)]
pub enum Invite {
    /// To add a friend; without an address it is found out later.
    Add { nickname: String, pubkey: [u8; 32], ip: Option<String> },
    /// To talk to someone who is a friend already.
    Talk { pubkey: [u8; 32] },
}

/// The contents of an [`Invite`].
#[verifier::ext_equal]
pub enum InviteView {
    Add { nickname: Seq<char>, pubkey: Seq<u8>, ip: Option<Seq<char>> },
    Talk { pubkey: Seq<u8> },
}

impl View for Invite {
    type V = InviteView;

    open spec fn view(&self) -> InviteView {
        match self {
            Invite::Add { nickname, pubkey, ip } => InviteView::Add {
                nickname: nickname@,
                pubkey: pubkey@,
                ip: opt_text(*ip),
            },
            Invite::Talk { pubkey } => InviteView::Talk { pubkey: pubkey@ },
        }
    }
}

impl InviteView {
    pub open spec fn key(self) -> Seq<u8> {
        match self {
            InviteView::Add { pubkey, .. } => pubkey,
            InviteView::Talk { pubkey } => pubkey,
        }
    }
}

impl Invite {
    /// The user that the link is about.
    pub fn pubkey(&self) -> (r: [u8; 32])
        ensures
            r@ == self@.key(),
    {
        match self {
            Invite::Add { pubkey, .. } => *pubkey,
            Invite::Talk { pubkey } => *pubkey,
        }
    }
}

// ---------- writing ----------

/// The link that invites to add a user.
pub open spec fn invite_text(
    nickname: Seq<char>,
    pubkey: Seq<u8>,
    ips: Seq<Seq<char>>,
) -> Seq<char> {
    let head = SCHEME@ + "://add?nickname="@ + pct_encoded(trimmed(nickname)) + "&pubkey="@
        + hex_text(pubkey);
    if ips.len() > 0 {
        head + "&ip="@ + pct_encoded(ips[0])
    } else {
        head
    }
}

/// Writes the link that invites to add a user, with the first of its
/// addresses.
pub fn build_invite(cfg: &Config, pubkey: [u8; 32], ips: &[String]) -> (r: String)
    ensures
        r@ == invite_text(cfg.nickname@, pubkey@, texts(ips@)),
{
    let mut s = SCHEME.to_owned();
    s.append("://add?nickname=");
    s.append(&pct_encode(cfg.nickname.as_str().trim()));
    s.append("&pubkey=");
    s.append(&id::encode(pubkey));
    if ips.len() > 0 {
        s.append("&ip=");
        s.append(&pct_encode(&ips[0]));
    }
    s
}

// ---------- reading ----------

/// Why a text is no link.
#[derive(Debug)]
pub enum LinkError {
    Empty,
    /// The text does not begin with the scheme.
    Scheme(String),
    NoPubkey,
    BadPubkey,
    BadIp,
    /// The user ID of a link to talk is none.
    Id(IdError),
    /// The link asks for something else.
    Unsupported(String),
}

/// The contents of a [`LinkError`].
#[verifier::ext_equal]
pub enum LinkFault {
    Empty,
    Scheme(Seq<char>),
    NoPubkey,
    BadPubkey,
    BadIp,
    Id(IdError),
    Unsupported(Seq<char>),
}

impl View for LinkError {
    type V = LinkFault;

    open spec fn view(&self) -> LinkFault {
        match self {
            LinkError::Empty => LinkFault::Empty,
            LinkError::Scheme(s) => LinkFault::Scheme(s@),
            LinkError::NoPubkey => LinkFault::NoPubkey,
            LinkError::BadPubkey => LinkFault::BadPubkey,
            LinkError::BadIp => LinkFault::BadIp,
            LinkError::Id(e) => LinkFault::Id(*e),
            LinkError::Unsupported(s) => LinkFault::Unsupported(s@),
        }
    }
}

impl LinkFault {
    pub open spec fn text(self) -> Seq<char> {
        match self {
            LinkFault::Empty => "链接为空"@,
            LinkFault::Scheme(s) => "不是 kokonachat:// 链接: "@ + s,
            LinkFault::NoPubkey => "链接缺少 pubkey 参数"@,
            LinkFault::BadPubkey => "pubkey 不是有效的 64 位 hex"@,
            LinkFault::BadIp => "链接中的 ip 参数不合法"@,
            LinkFault::Id(e) => e.text(),
            LinkFault::Unsupported(s) => "不支持的链接类型: "@ + s,
        }
    }
}

impl LinkError {
    pub fn message(&self) -> (r: String)
        ensures
            r@ == self@.text(),
    {
        match self {
            LinkError::Empty => "链接为空".to_owned(),
            LinkError::Scheme(s) => {
                let mut r = "不是 kokonachat:// 链接: ".to_owned();
                r.append(s);
                r
            },
            LinkError::NoPubkey => "链接缺少 pubkey 参数".to_owned(),
            LinkError::BadPubkey => "pubkey 不是有效的 64 位 hex".to_owned(),
            LinkError::BadIp => "链接中的 ip 参数不合法".to_owned(),
            LinkError::Id(e) => e.message(),
            LinkError::Unsupported(s) => {
                let mut r = "不支持的链接类型: ".to_owned();
                r.append(s);
                r
            },
        }
    }
}

/// Position of the first `://`, the length where there is none.
pub open spec fn find_mark(s: Seq<char>) -> int
    decreases s.len(),
{
    if s.len() == 0 || is_mark(s) {
        0
    } else {
        1 + find_mark(s.drop_first())
    }
}

/// Whether a text begins with `://`.
pub open spec fn is_mark(s: Seq<char>) -> bool {
    s.len() >= 3 && s[0] == ':' && s[1] == '/' && s[2] == '/'
}

pub proof fn lemma_find_mark(s: Seq<char>)
    ensures
        0 <= find_mark(s) <= s.len(),
        find_mark(s) < s.len() ==> find_mark(s) + 3 <= s.len(),
    decreases s.len(),
{
    if s.len() > 0 && !is_mark(s) {
        lemma_find_mark(s.drop_first());
    }
}

fn find_mark_at(s: &[char]) -> (r: usize)
    ensures
        r == find_mark(s@),
{
    let ghost all = s@;
    let mut i: usize = 0;
    assert(all.skip(0) =~= all);
    while i < s.len()
        invariant
            i <= s@.len(),
            all == s@,
            find_mark(all) == i + find_mark(all.skip(i as int)),
        decreases s@.len() - i,
    {
        let ghost rest = all.skip(i as int);
        assert(rest[0] == s@[i as int]);
        assert(rest.drop_first() =~= all.skip(i + 1));
        if s.len() - i >= 3 && s[i] == ':' && s[i + 1] == '/' && s[i + 2] == '/' {
            assert(rest[1] == s@[i + 1] && rest[2] == s@[i + 2]);
            return i;
        }
        assert(!is_mark(rest)) by {
            if rest.len() >= 3 {
                assert(rest[1] == s@[i + 1] && rest[2] == s@[i + 2]);
            }
        }
        i = i + 1;
    }
    i
}

/// What a link with the given parameters asks for, by the part before them.
pub open spec fn asked(
    what: Seq<char>,
    params: Seq<(Seq<char>, Seq<char>)>,
) -> Result<InviteView, LinkFault> {
    if what == "add"@ {
        match param_value(params, "pubkey"@) {
            None => Err(LinkFault::NoPubkey),
            Some(k) => match id_of_text(k) {
                Err(_) => Err(LinkFault::BadPubkey),
                Ok(pubkey) => {
                    let nickname = match param_value(params, "nickname"@) {
                        Some(n) => n,
                        None => shown_id(k),
                    };
                    match param_value(params, "ip"@) {
                        None => Ok(InviteView::Add { nickname, pubkey, ip: None }),
                        Some(t) => match parsed_addr(t, DEFAULT_PORT) {
                            None => Err(LinkFault::BadIp),
                            Some(a) => Ok(
                                InviteView::Add {
                                    nickname,
                                    pubkey,
                                    ip: Some(ip_port_text(a.ip(), a.port())),
                                },
                            ),
                        },
                    }
                },
            },
        }
    } else if what == "talk"@ {
        match param_value(params, "pubkey"@) {
            None => Err(LinkFault::NoPubkey),
            Some(k) => match id_of_text(k) {
                Err(e) => Err(LinkFault::Id(e)),
                Ok(pubkey) => Ok(InviteView::Talk { pubkey }),
            },
        }
    } else {
        Err(LinkFault::Unsupported(what))
    }
}

/// What a link asks for after its scheme.
pub open spec fn asked_by(rest: Seq<char>) -> Result<InviteView, LinkFault> {
    let i = find_char(rest, '?');
    if i < rest.len() {
        asked(rest.take(i), params_of(rest.skip(i + 1)))
    } else {
        asked(rest, params_of(Seq::empty()))
    }
}

/// What a text asks for as a link.
pub open spec fn invite_of(raw: Seq<char>) -> Result<InviteView, LinkFault> {
    let s = trimmed(raw);
    let i = find_mark(s);
    if s.len() == 0 {
        Err(LinkFault::Empty)
    } else if i >= s.len() || s.take(i) != SCHEME@ {
        Err(LinkFault::Scheme(s))
    } else {
        asked_by(s.skip(i + 3))
    }
}

/// Whether a result is what a link asks for.
pub open spec fn is_invite(
    r: Result<Invite, LinkError>,
    want: Result<InviteView, LinkFault>,
) -> bool {
    match want {
        Ok(v) => r matches Ok(x) && x@ == v,
        Err(e) => r matches Err(x) && x@ == e,
    }
}

fn read_add(params: &Vec<(String, String)>) -> (r: Result<Invite, LinkError>)
    ensures
        is_invite(r, asked("add"@, percent::param_views(params@))),
{
    let k = match find_param(params, "pubkey") {
        Some(k) => k,
        None => {
            return Err(LinkError::NoPubkey);
        },
    };
    let pubkey = match id::decode(&k) {
        Ok(p) => p,
        Err(_) => {
            return Err(LinkError::BadPubkey);
        },
    };
    let ip = match find_param(params, "ip") {
        Some(t) => match parse_sockaddr(&t, DEFAULT_PORT) {
            Ok(a) => Some(fmt_addr(a)),
            Err(_) => {
                return Err(LinkError::BadIp);
            },
        },
        None => None,
    };
    let nickname = match find_param(params, "nickname") {
        Some(n) => n,
        None => show_id(&k),
    };
    Ok(Invite::Add { nickname, pubkey, ip })
}

/// Reads a `kokonachat://` link.
pub fn parse_url(raw: &str) -> (r: Result<Invite, LinkError>)
    ensures
        is_invite(r, invite_of(raw@)),
{
    let text = raw.trim();
    if text.is_empty() {
        return Err(LinkError::Empty);
    }
    let s = chars_of(text);
    let i: usize = find_mark_at(&s);
    proof {
        lemma_find_mark(s@);
    }
    if i >= s.len() {
        return Err(LinkError::Scheme(text.to_owned()));
    }
    let scheme = text_between(&s, 0, i);
    assert(scheme@ =~= s@.take(i as int));
    if !same_text(&scheme, SCHEME) {
        return Err(LinkError::Scheme(text.to_owned()));
    }
    let rest = &s[i + 3..s.len()];
    assert(rest@ =~= s@.skip(i + 3));
    let j: usize = find_char_at(rest, '?');
    proof {
        lemma_find_char(rest@, '?');
    }
    let what = text_between(rest, 0, j);
    let query = if j < rest.len() {
        text_between(rest, j + 1, rest.len())
    } else {
        String::new()
    };
    proof {
        assert(what@ =~= rest@.take(j as int));
        if j < rest@.len() {
            assert(query@ =~= rest@.skip(j + 1));
        } else {
            assert(what@ =~= rest@);
        }
    }
    let params = parse_query(&query);
    if same_text(&what, "add") {
        return read_add(&params);
    }
    proof {
        reveal_strlit("add");
        reveal_strlit("talk");
    }
    if same_text(&what, "talk") {
        return match find_param(&params, "pubkey") {
            Some(k) => match id::decode(&k) {
                Ok(pubkey) => Ok(Invite::Talk { pubkey }),
                Err(e) => Err(LinkError::Id(e)),
            },
            None => Err(LinkError::NoPubkey),
        };
    }
    Err(LinkError::Unsupported(what))
}

// ---------- registration ----------

/// The desktop entry that makes a program the handler of the links.
pub open spec fn desktop_entry_text(exe: Seq<char>) -> Seq<char> {
    "[Desktop Entry]\nType=Application\nName=KokonaChat\nComment=去中心化 P2P 即时通讯\nExec=\""@ + exe
        + "\" handle %u\nMimeType=x-scheme-handler/kokonachat;\nNoDisplay=true\nTerminal=false\n"@
}

/// Writes the desktop entry of a program.
pub fn desktop_entry(exe: &str) -> (r: String)
    ensures
        r@ == desktop_entry_text(exe@),
{
    let mut s =
        "[Desktop Entry]\nType=Application\nName=KokonaChat\nComment=去中心化 P2P 即时通讯\nExec=\"".to_owned();
    s.append(exe);
    s.append(
        "\" handle %u\nMimeType=x-scheme-handler/kokonachat;\nNoDisplay=true\nTerminal=false\n",
    );
    s
}

} // verus!
