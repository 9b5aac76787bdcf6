//! An invitation reads back as what it was written from, and nothing else is a
//! link.

use vstd::prelude::*;
use vstd::utf8::{encode_utf8, is_ascii_chars};

use crate::config::DEFAULT_PORT;
use crate::crypto::id::{
    hex_text, id_of_text, law_id_round_trip, lemma_hex_text, lemma_shown_id, IdError,
};
use crate::deeplink::percent::{
    is_pct_char, law_pct_round_trip, lemma_pct_text, lemma_plain, param_of, param_value, params_of,
    pct_decoded, pct_encoded,
};
use crate::deeplink::{
    asked, asked_by, find_mark, invite_of, invite_text, is_mark, lemma_find_mark, InviteView,
    LinkFault, SCHEME,
};
use crate::net::ip::ip_port_text;
use crate::net::socket::parsed_addr;
use crate::scan::{lemma_find_char, lemma_find_char_is};
use crate::text::{lemma_trimmed_id, lemma_utf8_injective, trimmed};

verus! {

proof fn lemma_find_mark_is(s: Seq<char>, i: int)
    requires
        0 <= i < s.len(),
        forall|j: int| 0 <= j < i ==> s[j] != ':',
        is_mark(s.skip(i)),
    ensures
        find_mark(s) == i,
    decreases i,
{
    if i == 0 {
        assert(s.skip(0) =~= s);
    } else {
        let t = s.drop_first();
        assert(t.skip(i - 1) =~= s.skip(i));
        assert forall|j: int| 0 <= j < i - 1 implies t[j] != ':' by {
            assert(t[j] == s[j + 1]);
        }
        lemma_find_mark_is(t, i - 1);
        assert(s[0] != ':');
    }
}

/// A piece of a query without ampersands is its first parameter.
proof fn lemma_params(piece: Seq<char>, rest: Seq<char>)
    requires
        forall|j: int| 0 <= j < piece.len() ==> piece[j] != '&',
    ensures
        params_of(piece) == param_of(piece),
        params_of(piece + seq!['&'] + rest) == param_of(piece) + params_of(rest),
{
    lemma_find_char_is(piece, '&', piece.len() as int);
    let q = piece + seq!['&'] + rest;
    lemma_find_char_is(q, '&', piece.len() as int);
    assert(q.take(piece.len() as int) =~= piece);
    assert(q.skip(piece.len() as int + 1) =~= rest);
}

/// A name, an equals sign and a value are one parameter.
proof fn lemma_param(name: Seq<char>, value: Seq<char>)
    requires
        is_ascii_chars(name),
        forall|j: int| 0 <= j < name.len() ==> name[j] != '=' && name[j] != '%',
    ensures
        param_of(name + seq!['='] + value) == seq![(name, pct_decoded(value))],
{
    let s = name + seq!['='] + value;
    lemma_find_char_is(s, '=', name.len() as int);
    assert(s.take(name.len() as int) =~= name);
    assert(s.skip(name.len() as int + 1) =~= value);
    lemma_plain(name);
}

/// Hexadecimal digits are plain letters and digits.
proof fn lemma_hex_plain(pubkey: Seq<u8>)
    ensures
        forall|j: int| 0 <= j < hex_text(pubkey).len() ==> is_pct_char(#[trigger] hex_text(pubkey)[j]) && hex_text(pubkey)[j] != '%',
{
    let h = hex_text(pubkey);
    assert forall|j: int| 0 <= j < h.len() implies is_pct_char(#[trigger] h[j]) && h[j] != '%' by {
        assert(0 <= pubkey[j / 2] as int / 16 < 16);
    }
}

proof fn lemma_encoded(s: Seq<char>)
    ensures
        forall|j: int| 0 <= j < pct_encoded(s).len() ==> is_pct_char(#[trigger] pct_encoded(s)[j]),
        s.len() > 0 ==> pct_encoded(s).len() > 0,
        pct_decoded(pct_encoded(s)) == s,
{
    lemma_pct_text(encode_utf8(s));
    law_pct_round_trip(s);
    if s.len() > 0 && encode_utf8(s).len() == 0 {
        vstd::utf8::is_ascii_chars_encode_utf8(Seq::<char>::empty());
        assert(encode_utf8(Seq::<char>::empty()) =~= encode_utf8(s));
        lemma_utf8_injective(s, Seq::empty());
    }
}

/// The query of an invitation.
spec fn query_text(name: Seq<char>, key: Seq<char>, ip: Option<Seq<char>>) -> Seq<char> {
    let head = "nickname="@ + name + "&pubkey="@ + key;
    match ip {
        Some(t) => head + "&ip="@ + t,
        None => head,
    }
}

/// The parameters of an invitation.
spec fn query_params(
    name: Seq<char>,
    key: Seq<char>,
    ip: Option<Seq<char>>,
) -> Seq<(Seq<char>, Seq<char>)> {
    let head = seq![("nickname"@, pct_decoded(name)), ("pubkey"@, pct_decoded(key))];
    match ip {
        Some(t) => head.push(("ip"@, pct_decoded(t))),
        None => head,
    }
}

proof fn lemma_query(name: Seq<char>, key: Seq<char>, ip: Option<Seq<char>>)
    requires
        forall|j: int| 0 <= j < name.len() ==> is_pct_char(#[trigger] name[j]),
        forall|j: int| 0 <= j < key.len() ==> is_pct_char(#[trigger] key[j]),
        ip matches Some(t) ==> forall|j: int| 0 <= j < t.len() ==> is_pct_char(#[trigger] t[j]),
    ensures
        params_of(query_text(name, key, ip)) == query_params(name, key, ip),
{
    reveal_strlit("nickname=");
    reveal_strlit("nickname");
    reveal_strlit("&pubkey=");
    reveal_strlit("pubkey");
    reveal_strlit("&ip=");
    reveal_strlit("ip");
    let p1 = "nickname"@ + seq!['='] + name;
    let p2 = "pubkey"@ + seq!['='] + key;
    lemma_param("nickname"@, name);
    lemma_param("pubkey"@, key);
    match ip {
        Some(t) => {
            let p3 = "ip"@ + seq!['='] + t;
            lemma_param("ip"@, t);
            lemma_params(p3, Seq::empty());
            lemma_params(p2, p3);
            let q2 = p2 + seq!['&'] + p3;
            lemma_params(p1, q2);
            assert(query_text(name, key, ip) =~= p1 + seq!['&'] + q2);
            assert(query_params(name, key, ip) =~= param_of(p1) + (param_of(p2) + param_of(p3)));
        },
        None => {
            lemma_params(p2, Seq::empty());
            lemma_params(p1, p2);
            assert(query_text(name, key, ip) =~= p1 + seq!['&'] + p2);
            assert(query_params(name, key, ip) =~= param_of(p1) + param_of(p2));
        },
    }
}

/// What the parameters of an invitation ask for.
proof fn lemma_asked(name: Seq<char>, key: Seq<char>, ip: Option<Seq<char>>)
    ensures
        ({
            let q = query_params(name, key, ip);
            &&& param_value(q, "nickname"@) == if pct_decoded(name).len() > 0 {
                Some(pct_decoded(name))
            } else {
                None
            }
            &&& param_value(q, "pubkey"@) == if pct_decoded(key).len() > 0 {
                Some(pct_decoded(key))
            } else {
                None
            }
            &&& param_value(q, "ip"@) == match ip {
                Some(t) => if pct_decoded(t).len() > 0 {
                    Some(pct_decoded(t))
                } else {
                    None
                },
                None => None,
            }
        }),
{
    reveal_strlit("nickname");
    reveal_strlit("pubkey");
    reveal_strlit("ip");
    reveal_with_fuel(param_value, 4);
    let q = query_params(name, key, ip);
    assert("nickname"@.len() != "pubkey"@.len());
    assert("nickname"@.len() != "ip"@.len());
    assert("pubkey"@.len() != "ip"@.len());
    assert(q.skip(1)[0] == q[1]);
    if ip is Some {
        assert(q.skip(1).skip(1)[0] == q[2]);
    }
}

/// A link to add someone is read by its parameters.
proof fn lemma_url(q: Seq<char>)
    requires
        q.len() > 0,
        is_pct_char(q.last()),
    ensures
        invite_of(SCHEME@ + "://add?"@ + q) == asked("add"@, params_of(q)),
{
    reveal_strlit("kokonachat");
    reveal_strlit("://add?");
    reveal_strlit("add");
    let url = SCHEME@ + "://add?"@ + q;
    assert(url[0] == 'k');
    assert(url.last() == q.last());
    lemma_trimmed_id(url);
    let m = url.skip(10);
    assert(m[0] == ':' && m[1] == '/' && m[2] == '/');
    lemma_find_mark_is(url, 10);
    assert(url.take(10) =~= SCHEME@);
    let rest = url.skip(13);
    assert(rest =~= "add"@ + seq!['?'] + q);
    lemma_find_char_is(rest, '?', 3);
    assert(rest.take(3) =~= "add"@);
    assert(rest.skip(4) =~= q);
    assert(asked_by(rest) == asked("add"@, params_of(q)));
}

/// An invitation is a link to add someone.
proof fn lemma_invite_text(nickname: Seq<char>, pubkey: Seq<u8>, ips: Seq<Seq<char>>)
    ensures
        invite_text(nickname, pubkey, ips) == SCHEME@ + "://add?"@ + query_text(
            pct_encoded(trimmed(nickname)),
            hex_text(pubkey),
            if ips.len() > 0 {
                Some(pct_encoded(ips[0]))
            } else {
                None
            },
        ),
{
    reveal_strlit("://add?nickname=");
    reveal_strlit("://add?");
    reveal_strlit("nickname=");
    let name = pct_encoded(trimmed(nickname));
    let key = hex_text(pubkey);
    assert("://add?nickname="@ =~= "://add?"@ + "nickname="@);
    if ips.len() > 0 {
        assert(invite_text(nickname, pubkey, ips) =~= SCHEME@ + "://add?"@ + query_text(
            name,
            key,
            Some(pct_encoded(ips[0])),
        ));
    } else {
        assert(invite_text(nickname, pubkey, ips) =~= SCHEME@ + "://add?"@ + query_text(
            name,
            key,
            None,
        ));
    }
}

/// Reading an invitation gives back the nickname without the blanks around
/// it, the user ID, and the address with its port. A nickname of blanks only
/// becomes the short user ID.
pub proof fn law_invite_round_trip(
    nickname: Seq<char>,
    pubkey: Seq<u8>,
    ips: Seq<Seq<char>>,
)
    requires
        pubkey.len() == 32,
        ips.len() > 0 ==> ips[0].len() > 0 && parsed_addr(ips[0], DEFAULT_PORT) is Some,
    ensures
        invite_of(invite_text(nickname, pubkey, ips)) == Ok::<InviteView, LinkFault>(
            InviteView::Add {
                nickname: if trimmed(nickname).len() > 0 {
                    trimmed(nickname)
                } else {
                    hex_text(pubkey).take(12)
                },
                pubkey,
                ip: if ips.len() > 0 {
                    let a = parsed_addr(ips[0], DEFAULT_PORT)->0;
                    Some(ip_port_text(a.ip(), a.port()))
                } else {
                    None
                },
            },
        ),
{
    let name = pct_encoded(trimmed(nickname));
    let key = hex_text(pubkey);
    let ip = if ips.len() > 0 {
        Some(pct_encoded(ips[0]))
    } else {
        None
    };
    lemma_encoded(trimmed(nickname));
    lemma_hex_text(pubkey);
    lemma_hex_plain(pubkey);
    lemma_plain(key);
    lemma_shown_id(pubkey);
    law_id_round_trip(pubkey);
    if ips.len() > 0 {
        lemma_encoded(ips[0]);
    }
    lemma_query(name, key, ip);
    lemma_asked(name, key, ip);
    let q = query_text(name, key, ip);
    lemma_invite_text(nickname, pubkey, ips);
    assert(is_pct_char(q.last())) by {
        match ip {
            Some(t) => {
                assert(q.last() == t.last());
            },
            None => {
                assert(q.last() == key.last());
            },
        }
    }
    lemma_url(q);
}

/// A link to talk to someone is read as just that.
pub proof fn law_talk_link(pubkey: Seq<u8>)
    requires
        pubkey.len() == 32,
    ensures
        invite_of(SCHEME@ + "://talk?pubkey="@ + hex_text(pubkey)) == Ok::<InviteView, LinkFault>(
            InviteView::Talk { pubkey },
        ),
{
    reveal_strlit("kokonachat");
    reveal_strlit("://talk?pubkey=");
    reveal_strlit("talk");
    reveal_strlit("add");
    reveal_strlit("pubkey");
    let key = hex_text(pubkey);
    let url = SCHEME@ + "://talk?pubkey="@ + key;
    lemma_hex_plain(pubkey);
    lemma_hex_text(pubkey);
    assert(url[0] == 'k');
    assert(is_pct_char(key[key.len() - 1]));
    assert(url.last() == key.last());
    lemma_trimmed_id(url);
    let m = url.skip(10);
    assert(m[0] == ':' && m[1] == '/' && m[2] == '/');
    lemma_find_mark_is(url, 10);
    assert(url.take(10) =~= SCHEME@);
    let rest = url.skip(13);
    let q = "pubkey"@ + seq!['='] + key;
    assert(rest =~= "talk"@ + seq!['?'] + q);
    lemma_find_char_is(rest, '?', 4);
    assert(rest.take(4) =~= "talk"@);
    assert(rest.skip(5) =~= q);
    assert forall|j: int| 0 <= j < q.len() implies q[j] != '&' by {
        if j >= 7 {
            assert(q[j] == key[j - 7]);
        }
    }
    lemma_params(q, Seq::empty());
    lemma_param("pubkey"@, key);
    lemma_plain(key);
    let v = params_of(q);
    assert(v[0] == ("pubkey"@, key));
    assert(param_value(v, "pubkey"@) == Some(key));
    law_id_round_trip(pubkey);
    assert("talk"@.len() != "add"@.len());
}

/// A parameter has the value of its first occurrence; without one, or with an
/// empty first one, it has none.
pub proof fn law_param_value(v: Seq<(Seq<char>, Seq<char>)>, name: Seq<char>, i: int)
    requires
        0 <= i <= v.len(),
        forall|j: int| 0 <= j < i ==> (#[trigger] v[j]).0 != name,
        i < v.len() ==> v[i].0 == name,
    ensures
        param_value(v, name) == if i < v.len() && v[i].1.len() > 0 {
            Some(v[i].1)
        } else {
            None
        },
    decreases v.len(),
{
    if v.len() > 0 && i > 0 {
        assert(v[0].0 != name);
        let t = v.skip(1);
        assert forall|j: int| 0 <= j < i - 1 implies (#[trigger] t[j]).0 != name by {
            assert(v[j + 1] == t[j]);
        }
        law_param_value(t, name, i - 1);
    }
}

/// Only a text of our scheme is a link, and only one that names a user ID that
/// can be read.
pub proof fn law_only_our_links(raw: Seq<char>)
    ensures
        invite_of(raw) matches Ok(invite) ==> ({
            let s = trimmed(raw);
            &&& s.len() > 13
            &&& s.take(13) == SCHEME@ + "://"@
            &&& exists|k: Seq<char>| #[trigger]
                id_of_text(k) == Ok::<Seq<u8>, IdError>(invite.key())
        }),
{
    reveal_strlit("kokonachat");
    reveal_strlit("://");
    reveal_strlit("add");
    reveal_strlit("talk");
    let s = trimmed(raw);
    if invite_of(raw) is Ok {
        lemma_find_mark(s);
        lemma_mark_at(s);
        let i = find_mark(s);
        assert(s.take(i) == SCHEME@);
        assert(i == 10);
        assert(s.take(13) =~= SCHEME@ + "://"@);
        let rest = s.skip(13);
        if s.len() == 13 {
            assert(rest =~= Seq::<char>::empty());
            lemma_find_char(rest, '?');
            assert(rest != "add"@ && rest != "talk"@);
        }
    }
}

proof fn lemma_mark_at(s: Seq<char>)
    ensures
        find_mark(s) < s.len() ==> is_mark(s.skip(find_mark(s))),
    decreases s.len(),
{
    if s.len() > 0 {
        if is_mark(s) {
            assert(s.skip(0) =~= s);
        } else {
            let t = s.drop_first();
            lemma_mark_at(t);
            lemma_find_mark(t);
            if find_mark(t) < t.len() {
                assert(t.skip(find_mark(t)) =~= s.skip(find_mark(s)));
            }
        }
    }
}

} // verus!
