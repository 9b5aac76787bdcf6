//! Who is a friend: what adding one does, by whichever way, and that nobody is
//! a friend of themselves or twice.

use vstd::prelude::*;

use crate::account::{friend_added, names_of, AddError};
use crate::crypto::id::{hex_text, id_of_text, IdError};
use crate::deeplink::{invite_of, InviteView};
use crate::ipc::{outcome, MsgView};
use crate::net::ip::ip_port_text;
use crate::net::socket::parsed_addr;
use crate::store::friends::{
    befriended, find_friend, friend_of, has_friend, lemma_find_friend, unique_ids, FriendView,
};
use crate::tui::settings::{link_added, RefusalView};

verus! {

/// Whether a list is another one with one friend after it, who was not in it.
pub open spec fn gained(
    fs: Seq<FriendView>,
    after: Seq<FriendView>,
    nickname: Seq<char>,
    pubkey: Seq<u8>,
    ips: Seq<Seq<char>>,
) -> bool {
    &&& !has_friend(fs, pubkey)
    &&& after.len() == fs.len() + 1
    &&& forall|i: int| 0 <= i < fs.len() ==> #[trigger] after[i] == fs[i]
    &&& after.last().nickname == nickname
    &&& after.last().pubkey == hex_text(pubkey)
    &&& after.last().ips == ips
    &&& after.last().last_seen is None
}

/// A new friend can be found under its user ID from then on, nobody else can
/// who could not before, and user IDs stay unique.
pub proof fn law_gained(
    fs: Seq<FriendView>,
    after: Seq<FriendView>,
    nickname: Seq<char>,
    pubkey: Seq<u8>,
    ips: Seq<Seq<char>>,
    other: Seq<u8>,
)
    requires
        gained(fs, after, nickname, pubkey, ips),
        hex_text(other) != hex_text(pubkey),
    ensures
        friend_of(after, pubkey) == Some(after.last()),
        friend_of(after, other) == friend_of(fs, other),
        unique_ids(fs) ==> unique_ids(after),
{
    let k = hex_text(pubkey);
    let o = hex_text(other);
    lemma_find_friend(fs, k);
    lemma_find_friend(after, k);
    lemma_find_friend(fs, o);
    lemma_find_friend(after, o);
    assert(after[fs.len() as int] == after.last());
    let i = find_friend(after, k);
    if i < fs.len() {
        assert(fs[i] == after[i]);
        assert(fs[i].pubkey != k);
    }
    let a = find_friend(fs, o);
    let b = find_friend(after, o);
    if b < fs.len() {
        assert(fs[b] == after[b]);
        if a < b {
            assert(after[a] == fs[a]);
        } else if b < a {
            assert(fs[b].pubkey != o);
        }
    } else if a < fs.len() {
        assert(after[a] == fs[a]);
    }
    if unique_ids(fs) {
        assert forall|x: int, y: int| 0 <= x < y < after.len() implies (
        #[trigger] after[x]).pubkey != (#[trigger] after[y]).pubkey by {
            assert(after[x] == fs[x]);
            if y < fs.len() {
                assert(after[y] == fs[y]);
            } else {
                assert(fs[x].pubkey != k);
            }
        }
    }
}

proof fn lemma_befriended(
    fs: Seq<FriendView>,
    nickname: Seq<char>,
    pubkey: Seq<u8>,
    ip: Option<Seq<char>>,
)
    requires
        !has_friend(fs, pubkey),
    ensures
        gained(
            fs,
            befriended(fs, nickname, pubkey, ip),
            nickname,
            pubkey,
            match ip {
                Some(a) => seq![a],
                None => Seq::empty(),
            },
        ),
{
}

/// Adding a friend by hand takes a user ID that can be read, an address that
/// can be read, and that it is not a friend yet; then it has that address, in
/// the form with a port. Of several reasons against it the first counts.
pub proof fn law_added_by_hand(
    fs: Seq<FriendView>,
    nickname: Seq<char>,
    pubkey: Seq<char>,
    ip: Seq<char>,
)
    ensures
        match friend_added(fs, nickname, pubkey, ip) {
            Ok((after, stored)) => {
                &&& id_of_text(pubkey) matches Ok(pk)
                &&& parsed_addr(ip, 1212) matches Some(a)
                &&& stored == ip_port_text(a.ip(), a.port())
                &&& gained(fs, after, nickname, pk, seq![stored])
            },
            Err(AddError::Pubkey) => id_of_text(pubkey) is Err,
            Err(AddError::Ip) => id_of_text(pubkey) is Ok && parsed_addr(ip, 1212) is None,
            Err(AddError::Duplicate) => id_of_text(pubkey) matches Ok(pk) && has_friend(fs, pk)
                && parsed_addr(ip, 1212) is Some,
        },
{
    match id_of_text(pubkey) {
        Ok(pk) => match parsed_addr(ip, 1212) {
            Some(a) => {
                if !has_friend(fs, pk) {
                    lemma_befriended(fs, nickname, pk, Some(ip_port_text(a.ip(), a.port())));
                }
            },
            None => {},
        },
        Err(_) => {},
    }
}

/// The names under which an account is a friend are those of the entries with
/// its user ID.
pub proof fn law_names_of(fs: Seq<FriendView>, key: Seq<char>, name: Seq<char>)
    ensures
        names_of(fs, key).contains(name) <==> exists|i: int|
            0 <= i < fs.len() && (#[trigger] fs[i]).pubkey == key && fs[i].nickname == name,
    decreases fs.len(),
{
    if fs.len() > 0 {
        let t = fs.drop_last();
        law_names_of(t, key, name);
        let f = names_of(t, key);
        let r = names_of(fs, key);
        if r.contains(name) {
            let j = r.index_of(name);
            if j < f.len() {
                assert(f[j] == name);
                let i = choose|i: int|
                    0 <= i < t.len() && (#[trigger] t[i]).pubkey == key && t[i].nickname == name;
                assert(fs[i] == t[i]);
            } else {
                assert(fs[fs.len() - 1].nickname == name);
            }
        }
        if exists|i: int|
            0 <= i < fs.len() && (#[trigger] fs[i]).pubkey == key && fs[i].nickname == name {
            let i = choose|i: int|
                0 <= i < fs.len() && (#[trigger] fs[i]).pubkey == key && fs[i].nickname == name;
            if i < t.len() {
                assert(t[i] == fs[i]);
                let j = f.index_of(name);
                assert(r[j] == name);
            } else {
                assert(r[r.len() - 1] == name);
            }
        }
    }
}

/// A link adds the one it names if that is not ourselves and not a friend yet,
/// and if it asks for that; someone who is a friend stays one. Nobody becomes
/// a friend of themselves.
pub proof fn law_added_by_link(book: Seq<FriendView>, own_id: Seq<char>, url: Seq<char>)
    ensures
        match link_added(book, own_id, url) {
            Ok(after) => {
                &&& invite_of(url) matches Ok(invite)
                &&& id_of_text(own_id) matches Ok(own)
                &&& invite.key() != own
                &&& has_friend(book, invite.key()) ==> after == book
                &&& !has_friend(book, invite.key()) ==> match invite {
                    InviteView::Add { nickname, pubkey, ip } => gained(
                        book,
                        after,
                        nickname,
                        pubkey,
                        match ip {
                            Some(a) => seq![a],
                            None => Seq::empty(),
                        },
                    ),
                    InviteView::Talk { .. } => false,
                }
            },
            Err(RefusalView::Invalid(_)) => invite_of(url) is Err,
            Err(RefusalView::OwnId(_)) => invite_of(url) is Ok && id_of_text(own_id) is Err,
            Err(RefusalView::Myself) => invite_of(url) matches Ok(invite) && id_of_text(own_id)
                == Ok::<Seq<u8>, IdError>(invite.key()),
            Err(RefusalView::NotInvite) => invite_of(url) matches Ok(invite) && !has_friend(
                book,
                invite.key(),
            ) && invite is Talk,
        },
{
    match invite_of(url) {
        Ok(invite) => {
            if !has_friend(book, invite.key()) {
                match invite {
                    InviteView::Add { nickname, pubkey, ip } => {
                        lemma_befriended(book, nickname, pubkey, ip);
                    },
                    InviteView::Talk { .. } => {},
                }
            }
        },
        Err(_) => {},
    }
}

/// A request to the running client changes the friend list only if it asks to
/// add someone with a readable user ID who is not a friend yet; then it gains
/// just that one. To ask to talk changes nothing, and succeeds exactly for a
/// friend.
pub proof fn law_request(m: MsgView, book: Seq<FriendView>, pk: Seq<u8>)
    requires
        m.pubkey matches Some(k) && id_of_text(k) == Ok::<Seq<u8>, IdError>(pk),
    ensures
        ({
            let o = outcome(m, book);
            &&& m.cmd == "add_friend"@ && !has_friend(book, pk) ==> o.text == "ok"@ && gained(
                book,
                o.book,
                match m.nickname {
                    Some(n) => n,
                    None => Seq::empty(),
                },
                pk,
                match m.ip {
                    Some(a) => seq![a],
                    None => Seq::empty(),
                },
            )
            &&& m.cmd == "add_friend"@ && has_friend(book, pk) ==> o.text == "already"@ && o.book
                == book
            &&& m.cmd == "talk"@ ==> o.book == book && (o.text == "ok"@) == has_friend(book, pk)
            &&& m.cmd != "add_friend"@ && m.cmd != "talk"@ ==> o.book == book && o.text != "ok"@
                && o.status is None
        }),
{
    reveal_strlit("add_friend");
    reveal_strlit("talk");
    reveal_strlit("ok");
    reveal_strlit("err: not-friend");
    reveal_strlit("err: 未知命令 ");
    assert("add_friend"@.len() != "talk"@.len());
    assert("ok"@.len() != "err: not-friend"@.len());
    assert(("err: 未知命令 "@ + m.cmd).len() > "ok"@.len());
    if !has_friend(book, pk) {
        lemma_befriended(
            book,
            match m.nickname {
                Some(n) => n,
                None => Seq::empty(),
            },
            pk,
            m.ip,
        );
    }
}

/// A request without a readable user ID changes nothing and is refused.
pub proof fn law_bad_request(m: MsgView, book: Seq<FriendView>)
    requires
        m.pubkey matches Some(k) ==> id_of_text(k) is Err,
    ensures
        outcome(m, book).book == book,
        outcome(m, book).text != "ok"@,
        outcome(m, book).status is None,
{
    reveal_strlit("ok");
    reveal_strlit("err: 缺少 pubkey");
    reveal_strlit("err: pubkey 不是有效的 64 位 hex");
    assert("ok"@.len() == 2);
    assert("err: 缺少 pubkey"@.len() > 2);
    assert("err: pubkey 不是有效的 64 位 hex"@.len() > 2);
}

} // verus!
