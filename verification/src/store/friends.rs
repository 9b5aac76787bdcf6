//! The friend list: nickname, user ID, last known addresses and time last
//! seen of each friend.

use vstd::prelude::*;

use crate::crypto::id;
use crate::net::ip::{ip_of, read_ip, read_sockaddr, sockaddr_of, IpAddr, IpView};
use crate::net::socket::{filter_reachable, reachable};
use crate::text::{chars_of, clone_texts, opt_text, same_text, texts};
use crate::util::unix_millis;

verus! {

/// How many addresses of a friend are kept.
pub const MAX_IPS: usize = 8;

pub struct Friend {
    /// Local name of the friend.
    pub nickname: String,
    /// User ID in hexadecimal.
    pub pubkey: String,
    /// Last known addresses: IPv6 first after a merge, the address last seen
    /// first after direct traffic.
    pub ips: Vec<String>,
    /// Time of the last direct traffic, in Unix milliseconds.
    pub last_seen: Option<u64>,
}

/// The contents of a [`Friend`].
#[verifier::ext_equal]
pub struct FriendView {
    pub nickname: Seq<char>,
    pub pubkey: Seq<char>,
    pub ips: Seq<Seq<char>>,
    pub last_seen: Option<u64>,
}

impl View for Friend {
    type V = FriendView;

    open spec fn view(&self) -> FriendView {
        FriendView {
            nickname: self.nickname@,
            pubkey: self.pubkey@,
            ips: texts(self.ips@),
            last_seen: self.last_seen,
        }
    }
}

impl Clone for Friend {
    fn clone(&self) -> (r: Self)
        ensures
            r@ == self@,
    {
        Friend {
            nickname: self.nickname.clone(),
            pubkey: self.pubkey.clone(),
            ips: clone_texts(&self.ips),
            last_seen: self.last_seen,
        }
    }
}

/// The friend list as it is stored.
pub struct FriendsFile {
    pub friends: Vec<Friend>,
}

/// The contents of a list of friends.
pub open spec fn friend_views(v: Seq<Friend>) -> Seq<FriendView> {
    Seq::new(v.len(), |i: int| v[i]@)
}

/// The friend list, and whether it differs from what was last stored.
pub struct FriendStore {
    pub data: FriendsFile,
    pub unsaved: bool,
}

impl View for FriendStore {
    type V = Seq<FriendView>;

    open spec fn view(&self) -> Seq<FriendView> {
        friend_views(self.data.friends@)
    }
}

/// A friend list refuses a user ID that it already holds.
#[derive(Clone, Copy, Debug, PartialEq, Eq, Structural)]
pub struct DuplicateFriend;

impl DuplicateFriend {
    pub fn message(&self) -> (r: String)
        ensures
            r@ == "该公钥已存在好友列表中"@,
    {
        "该公钥已存在好友列表中".to_owned()
    }
}

// ---------- addresses as text ----------

/// The IP address in `ip`, `ip:port` or `[v6]:port`.
#[verifier::opaque]
pub open spec fn text_ip(s: Seq<char>) -> Option<IpView> {
    match sockaddr_of(s) {
        Some(a) => Some(a.ip()),
        None => ip_of(s),
    }
}

/// Whether a text is an address that is worth storing.
pub open spec fn reachable_text(s: Seq<char>) -> bool {
    text_ip(s) matches Some(ip) && reachable(ip)
}

/// Whether a text is an IPv6 address.
pub open spec fn is_v6_text(s: Seq<char>) -> bool {
    text_ip(s) matches Some(ip) && ip is V6
}

/// Reads the IP address in `ip`, `ip:port` or `[v6]:port`.
pub fn parse_ip(s: &str) -> (r: Option<IpAddr>)
    ensures
        r is Some <==> text_ip(s@) is Some,
        r matches Some(ip) ==> text_ip(s@) == Some(ip@),
{
    reveal(text_ip);
    let c = chars_of(s);
    match read_sockaddr(&c) {
        Some(a) => Some(a.ip()),
        None => read_ip(&c),
    }
}

/// Whether a text is an address that is worth storing: not link-local, unique
/// local, multicast or unspecified.
pub fn reachable_addr(s: &str) -> (r: bool)
    ensures
        r == reachable_text(s@),
{
    match parse_ip(s) {
        Some(ip) => filter_reachable(ip),
        None => false,
    }
}

/// Whether a text is an IPv6 address, by what it reads as and not by its
/// colons.
pub fn is_v6_addr(s: &str) -> (r: bool)
    ensures
        r == is_v6_text(s@),
{
    match parse_ip(s) {
        Some(IpAddr::V6(_)) => true,
        _ => false,
    }
}

// ---------- looking up ----------

/// Index of the first friend with a user ID, the length where there is none.
pub open spec fn find_friend(fs: Seq<FriendView>, key: Seq<char>) -> int
    decreases fs.len(),
{
    if fs.len() == 0 || fs[0].pubkey == key {
        0
    } else {
        1 + find_friend(fs.drop_first(), key)
    }
}

/// Whether the user with a public key is a friend.
pub open spec fn has_friend(fs: Seq<FriendView>, pubkey: Seq<u8>) -> bool {
    find_friend(fs, id::hex_text(pubkey)) < fs.len()
}

/// The friend with a public key.
pub open spec fn friend_of(fs: Seq<FriendView>, pubkey: Seq<u8>) -> Option<FriendView> {
    if has_friend(fs, pubkey) {
        Some(fs[find_friend(fs, id::hex_text(pubkey))])
    } else {
        None
    }
}

pub proof fn lemma_find_friend(fs: Seq<FriendView>, key: Seq<char>)
    ensures
        0 <= find_friend(fs, key) <= fs.len(),
        forall|j: int| 0 <= j < find_friend(fs, key) ==> (#[trigger] fs[j]).pubkey != key,
        find_friend(fs, key) < fs.len() ==> fs[find_friend(fs, key)].pubkey == key,
    decreases fs.len(),
{
    if fs.len() > 0 && fs[0].pubkey != key {
        let t = fs.drop_first();
        lemma_find_friend(t, key);
        assert forall|j: int| 0 <= j < find_friend(fs, key) implies (#[trigger] fs[j]).pubkey
            != key by {
            if j > 0 {
                assert(t[j - 1] == fs[j]);
            }
        }
    }
}

/// No user ID occurs twice.
pub open spec fn unique_ids(fs: Seq<FriendView>) -> bool {
    forall|i: int, j: int| 0 <= i < j < fs.len() ==> (#[trigger] fs[i]).pubkey != (#[trigger] fs[j]).pubkey
}

// ---------- changes to a friend ----------

/// Index of the first occurrence of a text, the length where there is none.
pub open spec fn find_text(v: Seq<Seq<char>>, s: Seq<char>) -> int
    decreases v.len(),
{
    if v.len() == 0 || v[0] == s {
        0
    } else {
        1 + find_text(v.drop_first(), s)
    }
}

pub proof fn lemma_find_text(v: Seq<Seq<char>>, s: Seq<char>)
    ensures
        0 <= find_text(v, s) <= v.len(),
        forall|j: int| 0 <= j < find_text(v, s) ==> v[j] != s,
        find_text(v, s) < v.len() ==> v[find_text(v, s)] == s,
        find_text(v, s) < v.len() <==> v.contains(s),
    decreases v.len(),
{
    if v.len() > 0 && v[0] != s {
        let t = v.drop_first();
        lemma_find_text(t, s);
        assert forall|j: int| 0 <= j < find_text(v, s) implies v[j] != s by {
            if j > 0 {
                assert(t[j - 1] == v[j]);
            }
        }
        if v.contains(s) {
            let k = v.index_of(s);
            assert(t[k - 1] == s);
        }
    }
}

fn find_text_at(v: &[String], s: &str) -> (i: usize)
    ensures
        i == find_text(texts(v@), s@),
{
    let mut i: usize = 0;
    while i < v.len() && !same_text(&v[i], s)
        invariant
            i <= v@.len(),
            forall|j: int| 0 <= j < i ==> texts(v@)[j] != s@,
        decreases v@.len() - i,
    {
        i = i + 1;
    }
    proof {
        lemma_find_text(texts(v@), s@);
        if i < v@.len() {
            assert(texts(v@)[i as int] == s@);
        }
    }
    i
}

/// An address moved to the front of a list, or added there.
pub open spec fn to_front(ips: Seq<Seq<char>>, ip: Seq<char>) -> Seq<Seq<char>> {
    let i = find_text(ips, ip);
    if i < ips.len() {
        seq![ip] + ips.remove(i)
    } else {
        seq![ip] + ips
    }
}

/// The first addresses, as many as are kept.
pub open spec fn capped(ips: Seq<Seq<char>>) -> Seq<Seq<char>> {
    if ips.len() > MAX_IPS {
        ips.take(MAX_IPS as int)
    } else {
        ips
    }
}

/// The addresses of a friend after traffic from `ip`, which counts only if it
/// is reachable.
pub open spec fn seen_ips(ips: Seq<Seq<char>>, ip: Option<Seq<char>>) -> Seq<Seq<char>> {
    match ip {
        Some(a) => if reachable_text(a) {
            capped(to_front(ips, a))
        } else {
            capped(ips)
        },
        None => capped(ips),
    }
}

/// A friend after traffic from `ip` at a given time.
pub open spec fn seen(f: FriendView, ip: Option<Seq<char>>, now: u64) -> FriendView {
    FriendView { ips: seen_ips(f.ips, ip), last_seen: Some(now), ..f }
}

/// The friend list after traffic of the user with a public key.
pub open spec fn book_seen(
    fs: Seq<FriendView>,
    pubkey: Seq<u8>,
    ip: Option<Seq<char>>,
    now: u64,
) -> Seq<FriendView> {
    if has_friend(fs, pubkey) {
        let i = find_friend(fs, id::hex_text(pubkey));
        fs.update(i, seen(fs[i], ip, now))
    } else {
        fs
    }
}

/// The reachable addresses of a list.
pub open spec fn reachable_part(ips: Seq<Seq<char>>) -> Seq<Seq<char>>
    decreases ips.len(),
{
    if ips.len() == 0 {
        Seq::empty()
    } else {
        let front = reachable_part(ips.drop_last());
        if reachable_text(ips.last()) {
            front.push(ips.last())
        } else {
            front
        }
    }
}

/// The IPv6 addresses of a list, or the others.
pub open spec fn family_part(ips: Seq<Seq<char>>, v6: bool) -> Seq<Seq<char>>
    decreases ips.len(),
{
    if ips.len() == 0 {
        Seq::empty()
    } else {
        let front = family_part(ips.drop_last(), v6);
        if is_v6_text(ips.last()) == v6 {
            front.push(ips.last())
        } else {
            front
        }
    }
}

/// `acc` followed by those of `ips` that are not yet in it.
pub open spec fn with_new(acc: Seq<Seq<char>>, ips: Seq<Seq<char>>) -> Seq<Seq<char>>
    decreases ips.len(),
{
    if ips.len() == 0 {
        acc
    } else {
        let front = with_new(acc, ips.drop_last());
        if front.contains(ips.last()) {
            front
        } else {
            front.push(ips.last())
        }
    }
}

/// The addresses of a friend merged with announced ones: the reachable
/// announced ones and those already known, each once, IPv6 first, as many as
/// are kept.
pub open spec fn merged_ips(ips: Seq<Seq<char>>, new_ips: Seq<Seq<char>>) -> Seq<Seq<char>> {
    let all = with_new(with_new(Seq::empty(), reachable_part(new_ips)), ips);
    capped(family_part(all, true) + family_part(all, false))
}

/// The friend list after merging announced addresses of the user with a
/// public key.
pub open spec fn book_merged(
    fs: Seq<FriendView>,
    pubkey: Seq<u8>,
    new_ips: Seq<Seq<char>>,
) -> Seq<FriendView> {
    if has_friend(fs, pubkey) {
        let i = find_friend(fs, id::hex_text(pubkey));
        fs.update(i, FriendView { ips: merged_ips(fs[i].ips, new_ips), ..fs[i] })
    } else {
        fs
    }
}

fn cap(ips: &mut Vec<String>)
    ensures
        texts(final(ips)@) == capped(texts(old(ips)@)),
{
    if ips.len() > MAX_IPS {
        ips.truncate(MAX_IPS);
    }
    assert(texts(ips@) =~= capped(texts(old(ips)@)));
}

fn move_to_front(ips: &mut Vec<String>, ip: &str)
    ensures
        texts(final(ips)@) == to_front(texts(old(ips)@), ip@),
{
    let ghost before = texts(ips@);
    let i: usize = find_text_at(ips, ip);
    if i < ips.len() {
        let _ = ips.remove(i);
        assert(texts(ips@) =~= before.remove(i as int));
    }
    let ghost mid = texts(ips@);
    ips.insert(0, ip.to_owned());
    assert(texts(ips@) =~= seq![ip@] + mid);
}

fn same_texts(a: &[String], b: &[String]) -> (r: bool)
    ensures
        r == (texts(a@) == texts(b@)),
{
    if a.len() != b.len() {
        assert(texts(a@).len() != texts(b@).len());
        return false;
    }
    let mut i: usize = 0;
    while i < a.len()
        invariant
            i <= a@.len(),
            a@.len() == b@.len(),
            forall|j: int| 0 <= j < i ==> texts(a@)[j] == texts(b@)[j],
        decreases a@.len() - i,
    {
        if !same_text(&a[i], &b[i]) {
            assert(texts(a@)[i as int] != texts(b@)[i as int]);
            return false;
        }
        i = i + 1;
    }
    assert(texts(a@) =~= texts(b@));
    true
}

fn reachable_of(ips: &[String]) -> (r: Vec<String>)
    ensures
        texts(r@) == reachable_part(texts(ips@)),
{
    let ghost t = texts(ips@);
    let mut r: Vec<String> = Vec::new();
    let mut i: usize = 0;
    assert(texts(r@) =~= reachable_part(t.take(0)));
    while i < ips.len()
        invariant
            i <= ips@.len(),
            t == texts(ips@),
            texts(r@) == reachable_part(t.take(i as int)),
        decreases ips@.len() - i,
    {
        let ghost before = texts(r@);
        if reachable_addr(&ips[i]) {
            r.push(ips[i].clone());
            assert(texts(r@) =~= before.push(t[i as int]));
        }
        i = i + 1;
        assert(t.take(i as int).drop_last() =~= t.take(i - 1));
    }
    assert(t.take(i as int) =~= t);
    r
}

fn add_new(all: &mut Vec<String>, ips: &[String])
    ensures
        texts(final(all)@) == with_new(texts(old(all)@), texts(ips@)),
{
    let ghost base = texts(all@);
    let ghost t = texts(ips@);
    let mut i: usize = 0;
    assert(texts(all@) =~= with_new(base, t.take(0)));
    while i < ips.len()
        invariant
            i <= ips@.len(),
            t == texts(ips@),
            texts(all@) == with_new(base, t.take(i as int)),
        decreases ips@.len() - i,
    {
        let ghost before = texts(all@);
        let at: usize = find_text_at(all, &ips[i]);
        proof {
            lemma_find_text(before, t[i as int]);
        }
        if at >= all.len() {
            all.push(ips[i].clone());
            assert(texts(all@) =~= before.push(t[i as int]));
        }
        i = i + 1;
        assert(t.take(i as int).drop_last() =~= t.take(i - 1));
    }
    assert(t.take(i as int) =~= t);
}

fn merge(ips: &[String], new_ips: &[String]) -> (r: Vec<String>)
    ensures
        texts(r@) == merged_ips(texts(ips@), texts(new_ips@)),
{
    let fresh = reachable_of(new_ips);
    let mut all: Vec<String> = Vec::new();
    assert(texts(all@) =~= Seq::<Seq<char>>::empty());
    add_new(&mut all, &fresh);
    add_new(&mut all, ips);
    let mut r = family(&all, true);
    let mut rest = family(&all, false);
    let ghost v6 = texts(r@);
    let ghost v4 = texts(rest@);
    r.append(&mut rest);
    assert(texts(r@) =~= v6 + v4);
    cap(&mut r);
    r
}

fn family(all: &[String], v6: bool) -> (r: Vec<String>)
    ensures
        texts(r@) == family_part(texts(all@), v6),
{
    let ghost t = texts(all@);
    let mut r: Vec<String> = Vec::new();
    let mut i: usize = 0;
    assert(texts(r@) =~= family_part(t.take(0), v6));
    while i < all.len()
        invariant
            i <= all@.len(),
            t == texts(all@),
            texts(r@) == family_part(t.take(i as int), v6),
        decreases all@.len() - i,
    {
        let ghost before = texts(r@);
        if is_v6_addr(&all[i]) == v6 {
            r.push(all[i].clone());
            assert(texts(r@) =~= before.push(t[i as int]));
        }
        i = i + 1;
        assert(t.take(i as int).drop_last() =~= t.take(i - 1));
    }
    assert(t.take(i as int) =~= t);
    r
}

// ---------- the store ----------

impl FriendStore {
    /// An empty friend list.
    pub fn new() -> (r: Self)
        ensures
            r@ == Seq::<FriendView>::empty(),
            !r.unsaved,
    {
        let r = FriendStore { data: FriendsFile { friends: Vec::new() }, unsaved: false };
        assert(r@ =~= Seq::<FriendView>::empty());
        r
    }

    /// The friend list that was stored.
    pub fn from_file(data: FriendsFile) -> (r: Self)
        ensures
            r@ == friend_views(data.friends@),
            !r.unsaved,
    {
        FriendStore { data, unsaved: false }
    }

    /// Whether the list has changed since it was last stored; from here on it
    /// counts as stored.
    pub fn take_unsaved(&mut self) -> (r: bool)
        ensures
            r == old(self).unsaved,
            !final(self).unsaved,
            final(self)@ == old(self)@,
    {
        let r = self.unsaved;
        self.unsaved = false;
        r
    }

    /// All friends.
    pub fn list(&self) -> (r: Vec<Friend>)
        ensures
            friend_views(r@) == self@,
    {
        let mut r: Vec<Friend> = Vec::new();
        let mut i: usize = 0;
        while i < self.data.friends.len()
            invariant
                i <= self.data.friends@.len(),
                friend_views(r@) =~= self@.take(i as int),
            decreases self.data.friends@.len() - i,
        {
            let ghost before = friend_views(r@);
            let f = self.data.friends[i].clone();
            let ghost fv = f@;
            r.push(f);
            assert(friend_views(r@) =~= before.push(fv));
            i = i + 1;
        }
        assert(self@.take(i as int) =~= self@);
        r
    }

    fn position(&self, pubkey: &[u8; 32]) -> (i: usize)
        ensures
            i == find_friend(self@, id::hex_text(pubkey@)),
            i <= self.data.friends@.len(),
    {
        let key = id::encode(*pubkey);
        let mut i: usize = 0;
        while i < self.data.friends.len() && self.data.friends[i].pubkey != key
            invariant
                i <= self.data.friends@.len(),
                key@ == id::hex_text(pubkey@),
                forall|j: int| 0 <= j < i ==> (#[trigger] self@[j]).pubkey != key@,
            decreases self.data.friends@.len() - i,
        {
            i = i + 1;
        }
        proof {
            lemma_find_friend(self@, key@);
            if i < self.data.friends@.len() {
                assert(self@[i as int].pubkey == key@);
            }
        }
        i
    }

    /// The friend with a public key.
    pub fn get(&self, pubkey: &[u8; 32]) -> (r: Option<Friend>)
        ensures
            match friend_of(self@, pubkey@) {
                Some(f) => r matches Some(x) && x@ == f,
                None => r is None,
            },
    {
        let i: usize = self.position(pubkey);
        if i < self.data.friends.len() {
            Some(self.data.friends[i].clone())
        } else {
            None
        }
    }

    /// Whether the user with a public key is a friend.
    pub fn contains(&self, pubkey: &[u8; 32]) -> (r: bool)
        ensures
            r == has_friend(self@, pubkey@),
    {
        self.position(pubkey) < self.data.friends.len()
    }

    /// Adds a friend, with a first address or without.
    pub fn add(&mut self, nickname: String, pubkey: [u8; 32], ip: Option<String>) -> (r: Result<
        (),
        DuplicateFriend,
    >)
        ensures
            has_friend(old(self)@, pubkey@) ==> r is Err && *final(self) == *old(self),
            !has_friend(old(self)@, pubkey@) ==> r is Ok && final(self).unsaved && final(self)@
                == befriended(old(self)@, nickname@, pubkey@, opt_text(ip)),
    {
        if self.contains(&pubkey) {
            return Err(DuplicateFriend);
        }
        let mut ips: Vec<String> = Vec::new();
        let ghost want = first_ips(opt_text(ip));
        match ip {
            Some(a) => {
                ips.push(a);
            },
            None => {},
        }
        assert(texts(ips@) =~= want);
        let ghost before = self@;
        let f = Friend { nickname, pubkey: id::encode(pubkey), ips, last_seen: None };
        let ghost fv = f@;
        self.data.friends.push(f);
        self.unsaved = true;
        assert(self@ =~= before.push(fv));
        Ok(())
    }

    /// Records traffic of a friend now: the time, and the address it came
    /// from if that is reachable. Returns whether anything changed.
    pub fn update_last_seen_and_ip(&mut self, pubkey: &[u8; 32], ip: Option<&str>) -> (r: bool)
        ensures
            exists|now: u64|
                final(self)@ == #[trigger] book_seen(old(self)@, pubkey@, ip_view(ip), now),
            r == (final(self)@ != old(self)@),
            final(self).unsaved == (old(self).unsaved || r),
    {
        self.update_last_seen_and_ip_at(pubkey, ip, unix_millis())
    }

    /// Records traffic of a friend at a given time.
    pub fn update_last_seen_and_ip_at(
        &mut self,
        pubkey: &[u8; 32],
        ip: Option<&str>,
        now: u64,
    ) -> (r: bool)
        ensures
            final(self)@ == book_seen(old(self)@, pubkey@, ip_view(ip), now),
            r == (final(self)@ != old(self)@),
            final(self).unsaved == (old(self).unsaved || r),
    {
        let i: usize = self.position(pubkey);
        if i >= self.data.friends.len() {
            return false;
        }
        let ghost before = self@;
        let mut f = self.data.friends[i].clone();
        match ip {
            Some(a) => {
                if reachable_addr(a) {
                    move_to_front(&mut f.ips, a);
                }
            },
            None => {},
        }
        cap(&mut f.ips);
        let changed = self.data.friends[i].last_seen != Some(now) || !same_texts(
            &self.data.friends[i].ips,
            &f.ips,
        );
        f.last_seen = Some(now);
        proof {
            assert(f@ =~= seen(before[i as int], ip_view(ip), now));
            assert(changed == (f@ != before[i as int]));
        }
        let ghost fv = f@;
        self.data.friends[i] = f;
        assert(self@ =~= before.update(i as int, fv));
        if changed {
            self.unsaved = true;
            assert(self@[i as int] != before[i as int]);
        } else {
            assert(self@ =~= before);
        }
        changed
    }

    /// Merges announced addresses of a friend into the known ones. Returns
    /// whether anything changed.
    pub fn merge_ips(&mut self, pubkey: &[u8; 32], new_ips: &[String]) -> (r: bool)
        ensures
            final(self)@ == book_merged(old(self)@, pubkey@, texts(new_ips@)),
            r == (final(self)@ != old(self)@),
            final(self).unsaved == (old(self).unsaved || r),
    {
        let i: usize = self.position(pubkey);
        if i >= self.data.friends.len() {
            return false;
        }
        let ghost before = self@;
        let merged = merge(&self.data.friends[i].ips, new_ips);
        let changed = !same_texts(&merged, &self.data.friends[i].ips);
        let mut f = self.data.friends[i].clone();
        f.ips = merged;
        let ghost fv = f@;
        proof {
            assert(fv =~= FriendView {
                ips: merged_ips(before[i as int].ips, texts(new_ips@)),
                ..before[i as int]
            });
            assert(changed == (fv != before[i as int]));
        }
        self.data.friends[i] = f;
        assert(self@ =~= before.update(i as int, fv));
        if changed {
            self.unsaved = true;
            assert(self@[i as int] != before[i as int]);
        } else {
            assert(self@ =~= before);
        }
        changed
    }
}

/// The addresses that a friend is added with.
pub open spec fn first_ips(ip: Option<Seq<char>>) -> Seq<Seq<char>> {
    match ip {
        Some(a) => seq![a],
        None => Seq::empty(),
    }
}

/// The friend list with a new friend at its end.
pub open spec fn befriended(
    fs: Seq<FriendView>,
    nickname: Seq<char>,
    pubkey: Seq<u8>,
    ip: Option<Seq<char>>,
) -> Seq<FriendView> {
    fs.push(
        FriendView {
            nickname,
            pubkey: id::hex_text(pubkey),
            ips: first_ips(ip),
            last_seen: None,
        },
    )
}

/// The text of an optional address.
pub open spec fn ip_view(ip: Option<&str>) -> Option<Seq<char>> {
    match ip {
        Some(a) => Some(a@),
        None => None,
    }
}

} // verus!
