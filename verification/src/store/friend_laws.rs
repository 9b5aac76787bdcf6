//! What holds of every friend list.

use vstd::prelude::*;

use crate::crypto::id;
use crate::store::friends::{
    book_merged, book_seen, family_part, find_text, friend_of, has_friend, is_v6_text, lemma_find_friend,
    lemma_find_text, merged_ips, reachable_part, reachable_text, seen_ips, unique_ids, with_new,
    FriendView, MAX_IPS,
};

verus! {

/// Adding a friend that is not yet in the list keeps the user IDs unique.
pub proof fn law_add_keeps_unique(fs: Seq<FriendView>, pubkey: Seq<u8>, f: FriendView)
    requires
        unique_ids(fs),
        !has_friend(fs, pubkey),
        f.pubkey == id::hex_text(pubkey),
    ensures
        unique_ids(fs.push(f)),
{
    lemma_find_friend(fs, f.pubkey);
}

/// Traffic and announcements change no nickname and no user ID, and no friend
/// but the one they are about.
pub proof fn law_updates_keep_identities(
    fs: Seq<FriendView>,
    pubkey: Seq<u8>,
    ip: Option<Seq<char>>,
    now: u64,
    new_ips: Seq<Seq<char>>,
)
    ensures
        same_identities(fs, book_seen(fs, pubkey, ip, now), pubkey),
        same_identities(fs, book_merged(fs, pubkey, new_ips), pubkey),
        unique_ids(fs) ==> unique_ids(book_seen(fs, pubkey, ip, now)),
        unique_ids(fs) ==> unique_ids(book_merged(fs, pubkey, new_ips)),
{
    lemma_find_friend(fs, id::hex_text(pubkey));
}

/// Two lists of the same friends that differ at most in what is known of one
/// of them.
pub open spec fn same_identities(
    a: Seq<FriendView>,
    b: Seq<FriendView>,
    pubkey: Seq<u8>,
) -> bool {
    &&& a.len() == b.len()
    &&& forall|i: int|
        0 <= i < a.len() ==> (#[trigger] a[i]).pubkey == b[i].pubkey && a[i].nickname
            == b[i].nickname
    &&& forall|i: int|
        0 <= i < a.len() && a[i] != b[i] ==> (#[trigger] a[i]).pubkey == id::hex_text(pubkey)
}

/// After traffic at most eight addresses are kept, none twice where none was
/// before, a reachable source address stands first, and an unreachable one
/// changes nothing but that limit.
pub proof fn law_seen_ips(ips: Seq<Seq<char>>, ip: Seq<char>)
    ensures
        seen_ips(ips, Some(ip)).len() <= MAX_IPS,
        reachable_text(ip) ==> seen_ips(ips, Some(ip)).len() > 0 && seen_ips(ips, Some(ip))[0]
            == ip,
        !reachable_text(ip) ==> seen_ips(ips, Some(ip)) == seen_ips(ips, None),
        ips.len() <= MAX_IPS ==> seen_ips(ips, None) == ips,
        ips.no_duplicates() ==> seen_ips(ips, Some(ip)).no_duplicates(),
{
    lemma_find_text(ips, ip);
    if ips.no_duplicates() {
        let at = find_text(ips, ip);
        let rest = if at < ips.len() {
            ips.remove(at)
        } else {
            ips
        };
        assert forall|i: int| 0 <= i < rest.len() implies rest[i] != ip by {
            if at < ips.len() {
                let k = if i < at {
                    i
                } else {
                    i + 1
                };
                assert(rest[i] == ips[k]);
                assert(ips[k] != ips[at]);
            }
        }
        assert((seq![ip] + rest).no_duplicates());
    }
}

proof fn lemma_reachable_part(ips: Seq<Seq<char>>)
    ensures
        forall|i: int|
            0 <= i < reachable_part(ips).len() ==> reachable_text(#[trigger] reachable_part(ips)[i])
                && ips.contains(reachable_part(ips)[i]),
    decreases ips.len(),
{
    if ips.len() > 0 {
        let front = ips.drop_last();
        lemma_reachable_part(front);
        let r = reachable_part(ips);
        assert forall|i: int| 0 <= i < r.len() implies reachable_text(#[trigger] r[i])
            && ips.contains(r[i]) by {
            if i < reachable_part(front).len() {
                assert(r[i] == reachable_part(front)[i]);
                let k = front.index_of(r[i]);
                assert(ips[k] == r[i]);
            } else {
                assert(ips[ips.len() - 1] == r[i]);
            }
        }
    }
}

proof fn lemma_with_new(acc: Seq<Seq<char>>, ips: Seq<Seq<char>>)
    ensures
        forall|i: int|
            0 <= i < with_new(acc, ips).len() ==> acc.contains(#[trigger] with_new(acc, ips)[i])
                || ips.contains(with_new(acc, ips)[i]),
    decreases ips.len(),
{
    if ips.len() > 0 {
        let front = ips.drop_last();
        lemma_with_new(acc, front);
        let r = with_new(acc, ips);
        assert forall|i: int| 0 <= i < r.len() implies acc.contains(#[trigger] r[i])
            || ips.contains(r[i]) by {
            if i < with_new(acc, front).len() {
                assert(r[i] == with_new(acc, front)[i]);
                if !acc.contains(r[i]) {
                    let k = front.index_of(r[i]);
                    assert(ips[k] == r[i]);
                }
            } else {
                assert(ips[ips.len() - 1] == r[i]);
            }
        }
    } else {
        assert forall|i: int| 0 <= i < acc.len() implies acc.contains(#[trigger] acc[i]) by {}
    }
}

proof fn lemma_with_new_once(acc: Seq<Seq<char>>, ips: Seq<Seq<char>>)
    requires
        acc.no_duplicates(),
    ensures
        with_new(acc, ips).no_duplicates(),
    decreases ips.len(),
{
    if ips.len() > 0 {
        lemma_with_new_once(acc, ips.drop_last());
    }
}

proof fn lemma_family_part_once(ips: Seq<Seq<char>>, v6: bool)
    requires
        ips.no_duplicates(),
    ensures
        family_part(ips, v6).no_duplicates(),
    decreases ips.len(),
{
    if ips.len() > 0 {
        let front = ips.drop_last();
        lemma_family_part_once(front, v6);
        lemma_family_part(front, v6);
        let f = family_part(front, v6);
        assert forall|i: int| 0 <= i < f.len() implies f[i] != ips.last() by {
            let k = front.index_of(f[i]);
            assert(ips[k] == f[i]);
        }
    }
}

proof fn lemma_family_part(ips: Seq<Seq<char>>, v6: bool)
    ensures
        forall|i: int|
            0 <= i < family_part(ips, v6).len() ==> is_v6_text(#[trigger] family_part(ips, v6)[i])
                == v6 && ips.contains(family_part(ips, v6)[i]),
    decreases ips.len(),
{
    if ips.len() > 0 {
        let front = ips.drop_last();
        lemma_family_part(front, v6);
        let r = family_part(ips, v6);
        assert forall|i: int| 0 <= i < r.len() implies is_v6_text(#[trigger] r[i]) == v6
            && ips.contains(r[i]) by {
            if i < family_part(front, v6).len() {
                assert(r[i] == family_part(front, v6)[i]);
                let k = front.index_of(r[i]);
                assert(ips[k] == r[i]);
            } else {
                assert(ips[ips.len() - 1] == r[i]);
            }
        }
    }
}

/// After a merge at most eight addresses are kept and none twice, every IPv6
/// address stands before every other one, and each is a reachable announced
/// one or was known before.
pub proof fn law_merged_ips(ips: Seq<Seq<char>>, new_ips: Seq<Seq<char>>)
    ensures
        merged_ips(ips, new_ips).len() <= MAX_IPS,
        merged_ips(ips, new_ips).no_duplicates(),
        forall|i: int, j: int|
            0 <= i < j < merged_ips(ips, new_ips).len() && is_v6_text(
                #[trigger] merged_ips(ips, new_ips)[j],
            ) ==> is_v6_text(#[trigger] merged_ips(ips, new_ips)[i]),
        forall|i: int|
            0 <= i < merged_ips(ips, new_ips).len() ==> ips.contains(
                #[trigger] merged_ips(ips, new_ips)[i],
            ) || (reachable_text(merged_ips(ips, new_ips)[i]) && new_ips.contains(
                merged_ips(ips, new_ips)[i],
            )),
{
    let none = Seq::<Seq<char>>::empty();
    let reached = reachable_part(new_ips);
    let fresh = with_new(none, reached);
    let all = with_new(fresh, ips);
    let six = family_part(all, true);
    let four = family_part(all, false);
    let r = merged_ips(ips, new_ips);
    lemma_reachable_part(new_ips);
    lemma_with_new(none, reached);
    lemma_with_new(fresh, ips);
    lemma_with_new_once(none, reached);
    lemma_with_new_once(fresh, ips);
    lemma_family_part(all, true);
    lemma_family_part(all, false);
    lemma_family_part_once(all, true);
    lemma_family_part_once(all, false);
    assert forall|i: int| 0 <= i < r.len() implies r[i] == if i < six.len() {
        six[i]
    } else {
        four[i - six.len()]
    } by {}
    assert forall|i: int, j: int| 0 <= i < r.len() && 0 <= j < r.len() && i != j implies r[i]
        != r[j] by {
        if i < six.len() && j < six.len() {
            assert(six[i] != six[j]);
        } else if i >= six.len() && j >= six.len() {
            assert(four[i - six.len()] != four[j - six.len()]);
        } else if i < six.len() {
            assert(is_v6_text(six[i]) && !is_v6_text(four[j - six.len()]));
        } else {
            assert(is_v6_text(six[j]) && !is_v6_text(four[i - six.len()]));
        }
    }
    assert forall|i: int, j: int| 0 <= i < j < r.len() && is_v6_text(
        #[trigger] r[j],
    ) implies is_v6_text(#[trigger] r[i]) by {
        if j >= six.len() {
            assert(r[j] == four[j - six.len()]);
        }
        assert(r[i] == six[i]);
    }
    assert forall|i: int| 0 <= i < r.len() implies ips.contains(#[trigger] r[i]) || (reachable_text(
        r[i],
    ) && new_ips.contains(r[i])) by {
        let x = r[i];
        if i < six.len() {
            assert(x == six[i]);
        } else {
            assert(x == four[i - six.len()]);
        }
        assert(all.contains(x));
        let k = all.index_of(x);
        assert(all[k] == x);
        if fresh.contains(x) {
            let m = fresh.index_of(x);
            assert(fresh[m] == x);
            assert(reached.contains(x));
            let n = reached.index_of(x);
            assert(reached[n] == x);
        }
    }
}

/// A user ID stands for the first entry with its text; there is none exactly
/// where no entry has it.
pub proof fn law_friend_of(fs: Seq<FriendView>, pubkey: Seq<u8>)
    ensures
        match friend_of(fs, pubkey) {
            Some(f) => exists|i: int|
                0 <= i < fs.len() && #[trigger] fs[i] == f && f.pubkey == id::hex_text(pubkey)
                    && forall|j: int| 0 <= j < i ==> (#[trigger] fs[j]).pubkey != f.pubkey,
            None => forall|j: int|
                0 <= j < fs.len() ==> (#[trigger] fs[j]).pubkey != id::hex_text(pubkey),
        },
        has_friend(fs, pubkey) == (friend_of(fs, pubkey) is Some),
{
    lemma_find_friend(fs, id::hex_text(pubkey));
}

/// After traffic from an address that counts as reachable, that address stands
/// first, and behind it come the addresses known before, in their order and
/// without a second copy of it, eight in all. Any other traffic only cuts the
/// list down to eight.
pub proof fn law_seen_order(ips: Seq<Seq<char>>, ip: Seq<char>, at: int)
    requires
        0 <= at <= ips.len(),
        forall|j: int| 0 <= j < at ==> #[trigger] ips[j] != ip,
        at < ips.len() ==> ips[at] == ip,
    ensures
        ({
            let r = seen_ips(ips, Some(ip));
            let all = if at < ips.len() {
                ips.len()
            } else {
                ips.len() + 1
            };
            if reachable_text(ip) {
                &&& r.len() == if all < 8 {
                    all
                } else {
                    8nat
                }
                &&& r[0] == ip
                &&& forall|k: int|
                    1 <= k < r.len() ==> #[trigger] r[k] == if k <= at {
                        ips[k - 1]
                    } else {
                        ips[k]
                    }
            } else {
                &&& r.len() == if ips.len() < 8 {
                    ips.len()
                } else {
                    8nat
                }
                &&& forall|k: int| 0 <= k < r.len() ==> #[trigger] r[k] == ips[k]
            }
        }),
{
    lemma_find_text(ips, ip);
    assert(find_text(ips, ip) == at);
}

proof fn lemma_reachable_all(ips: Seq<Seq<char>>, x: Seq<char>)
    ensures
        ips.contains(x) && reachable_text(x) ==> reachable_part(ips).contains(x),
    decreases ips.len(),
{
    if ips.len() > 0 && ips.contains(x) && reachable_text(x) {
        let front = ips.drop_last();
        let r = reachable_part(ips);
        let i = ips.index_of(x);
        lemma_reachable_all(front, x);
        if i < front.len() {
            assert(front[i] == x);
            let k = reachable_part(front).index_of(x);
            assert(r[k] == x);
        } else {
            assert(r[r.len() - 1] == x);
        }
    }
}

/// Adding the new ones drops nothing, and puts them behind what was there, in
/// their order.
proof fn lemma_with_new_all(acc: Seq<Seq<char>>, ips: Seq<Seq<char>>)
    ensures
        acc.len() <= with_new(acc, ips).len(),
        forall|i: int| 0 <= i < acc.len() ==> #[trigger] with_new(acc, ips)[i] == acc[i],
        forall|j: int| 0 <= j < ips.len() ==> with_new(acc, ips).contains(#[trigger] ips[j]),
        forall|i: int|
            acc.len() <= i < with_new(acc, ips).len() ==> ips.contains(
                #[trigger] with_new(acc, ips)[i],
            ),
        forall|i: int, j: int|
            acc.len() <= i < j < with_new(acc, ips).len() ==> find_text(
                ips,
                #[trigger] with_new(acc, ips)[i],
            ) < find_text(ips, #[trigger] with_new(acc, ips)[j]),
    decreases ips.len(),
{
    if ips.len() > 0 {
        let front = ips.drop_last();
        let y = ips.last();
        lemma_with_new_all(acc, front);
        let f = with_new(acc, front);
        let r = with_new(acc, ips);
        assert forall|i: int| 0 <= i < acc.len() implies #[trigger] r[i] == acc[i] by {
            assert(r[i] == f[i]);
        }
        assert forall|j: int| 0 <= j < ips.len() implies r.contains(#[trigger] ips[j]) by {
            if j < front.len() {
                assert(front[j] == ips[j]);
                let k = f.index_of(front[j]);
                assert(r[k] == ips[j]);
            } else if f.contains(y) {
                let k = f.index_of(y);
                assert(r[k] == y);
            } else {
                assert(r[r.len() - 1] == y);
            }
        }
        assert forall|i: int| acc.len() <= i < r.len() implies ips.contains(#[trigger] r[i]) by {
            if i < f.len() {
                assert(r[i] == f[i]);
                let k = front.index_of(f[i]);
                assert(ips[k] == r[i]);
            } else {
                assert(ips[ips.len() - 1] == r[i]);
            }
        }
        assert forall|i: int, j: int| acc.len() <= i < j < r.len() implies find_text(
            ips,
            #[trigger] r[i],
        ) < find_text(ips, #[trigger] r[j]) by {
            assert(r[i] == f[i]);
            assert(front.contains(f[i]));
            lemma_find_text_front(ips, f[i]);
            if j < f.len() {
                assert(r[j] == f[j]);
                assert(front.contains(f[j]));
                lemma_find_text_front(ips, f[j]);
            } else {
                lemma_find_text(front, r[i]);
                lemma_find_text(ips, y);
                assert(!front.contains(y)) by {
                    if front.contains(y) {
                        let k = front.index_of(y);
                        assert(f.contains(front[k]));
                    }
                }
                if find_text(ips, y) < front.len() {
                    assert(front[find_text(ips, y)] == y);
                }
            }
        }
    }
}

proof fn lemma_find_text_front(ips: Seq<Seq<char>>, x: Seq<char>)
    requires
        ips.len() > 0,
        ips.drop_last().contains(x),
    ensures
        find_text(ips, x) == find_text(ips.drop_last(), x),
        find_text(ips, x) < ips.len() - 1,
{
    let front = ips.drop_last();
    lemma_find_text(ips, x);
    lemma_find_text(front, x);
    let k = front.index_of(x);
    assert(front[k] == x && ips[k] == x);
    let i = find_text(ips, x);
    let j = find_text(front, x);
    if i < j {
        assert(front[i] == ips[i]);
    } else if j < i {
        assert(front[j] == ips[j]);
    }
}

/// The part of a family holds all of it, in its order.
proof fn lemma_family_part_all(ips: Seq<Seq<char>>, v6: bool)
    ensures
        forall|j: int|
            0 <= j < ips.len() && is_v6_text(ips[j]) == v6 ==> family_part(ips, v6).contains(
                #[trigger] ips[j],
            ),
        forall|a: int, b: int|
            0 <= a < b < family_part(ips, v6).len() ==> in_order(
                ips,
                #[trigger] family_part(ips, v6)[a],
                #[trigger] family_part(ips, v6)[b],
            ),
    decreases ips.len(),
{
    if ips.len() > 0 {
        let front = ips.drop_last();
        lemma_family_part_all(front, v6);
        lemma_family_part(front, v6);
        let f = family_part(front, v6);
        let r = family_part(ips, v6);
        assert forall|j: int| 0 <= j < ips.len() && is_v6_text(ips[j]) == v6 implies r.contains(
            #[trigger] ips[j],
        ) by {
            if j < front.len() {
                assert(front[j] == ips[j]);
                let k = f.index_of(front[j]);
                assert(r[k] == ips[j]);
            } else {
                assert(r[r.len() - 1] == ips[j]);
            }
        }
        assert forall|a: int, b: int| 0 <= a < b < r.len() implies in_order(
            ips,
            #[trigger] r[a],
            #[trigger] r[b],
        ) by {
            assert(r[a] == f[a]);
            if b < f.len() {
                assert(r[b] == f[b]);
                assert(in_order(front, f[a], f[b]));
                let (i, j) = choose|i: int, j: int|
                    0 <= i < j < front.len() && #[trigger] front[i] == f[a] && #[trigger] front[j]
                        == f[b];
                assert(ips[i] == r[a] && ips[j] == r[b]);
            } else {
                let i = front.index_of(f[a]);
                assert(ips[i] == r[a] && ips[ips.len() - 1] == r[b]);
            }
        }
    }
}

/// Whether one text stands before another in a list.
pub open spec fn in_order(v: Seq<Seq<char>>, x: Seq<char>, y: Seq<char>) -> bool {
    exists|i: int, j: int|
        0 <= i < j < v.len() && #[trigger] v[i] == x && #[trigger] v[j] == y
}

/// Whether a text is among the reachable ones that were announced.
pub open spec fn is_new(new_ips: Seq<Seq<char>>, x: Seq<char>) -> bool {
    new_ips.contains(x) && reachable_text(x)
}

/// A merge loses nothing while there is room: a reachable announced address
/// and one known before are kept, unless eight others are, and an IPv6 address
/// yields only to IPv6 addresses. Within a family the announced ones come
/// before those known before, and these stay in their order.
pub proof fn law_merge_keeps(ips: Seq<Seq<char>>, new_ips: Seq<Seq<char>>)
    ensures
        forall|x: Seq<char>|
            (#[trigger] is_new(new_ips, x) || ips.contains(x)) && !merged_ips(
                ips,
                new_ips,
            ).contains(x) ==> merged_ips(ips, new_ips).len() == 8 && (is_v6_text(x) ==> forall|
                m: int,
            |
                0 <= m < 8 ==> is_v6_text(#[trigger] merged_ips(ips, new_ips)[m])),
        forall|a: int, b: int|
            0 <= a < b < merged_ips(ips, new_ips).len() && is_v6_text(
                #[trigger] merged_ips(ips, new_ips)[a],
            ) == is_v6_text(#[trigger] merged_ips(ips, new_ips)[b]) ==> {
                let x = merged_ips(ips, new_ips)[a];
                let y = merged_ips(ips, new_ips)[b];
                &&& is_new(new_ips, y) ==> is_new(new_ips, x)
                &&& !is_new(new_ips, x) ==> find_text(ips, x) < find_text(ips, y)
            },
{
    let none = Seq::<Seq<char>>::empty();
    let reached = reachable_part(new_ips);
    let fresh = with_new(none, reached);
    let all = with_new(fresh, ips);
    let six = family_part(all, true);
    let four = family_part(all, false);
    let r = merged_ips(ips, new_ips);
    let whole = six + four;
    lemma_reachable_part(new_ips);
    lemma_with_new(none, reached);
    lemma_with_new_all(none, reached);
    lemma_with_new_all(fresh, ips);
    lemma_with_new_once(none, reached);
    lemma_with_new_once(fresh, ips);
    lemma_family_part(all, true);
    lemma_family_part(all, false);
    lemma_family_part_all(all, true);
    lemma_family_part_all(all, false);
    assert forall|x: Seq<char>| fresh.contains(x) <==> #[trigger] is_new(new_ips, x) by {
        lemma_reachable_all(new_ips, x);
        if is_new(new_ips, x) {
            let k = reached.index_of(x);
            assert(reached[k] == x);
            assert(fresh.contains(reached[k]));
        }
        if fresh.contains(x) {
            let k = fresh.index_of(x);
            assert(fresh[k] == x);
            assert(reached.contains(x));
            let n = reached.index_of(x);
            assert(reached[n] == x);
        }
    }
    assert forall|x: Seq<char>|
        (#[trigger] is_new(new_ips, x) || ips.contains(x)) && !r.contains(x) implies r.len() == 8
        && (is_v6_text(x) ==> forall|m: int| 0 <= m < 8 ==> is_v6_text(#[trigger] r[m])) by {
        assert(all.contains(x)) by {
            if is_new(new_ips, x) {
                let k = fresh.index_of(x);
                assert(all[k] == x);
            } else {
                let k = ips.index_of(x);
                assert(all.contains(ips[k]));
            }
        }
        let k = all.index_of(x);
        assert(all[k] == x);
        let at = if is_v6_text(x) {
            six.index_of(x)
        } else {
            six.len() + four.index_of(x)
        };
        assert(whole[at] == x);
        assert(at >= r.len()) by {
            if at < r.len() {
                assert(r[at] == x);
            }
        }
        if is_v6_text(x) {
            assert forall|m: int| 0 <= m < 8 implies is_v6_text(#[trigger] r[m]) by {
                assert(r[m] == six[m]);
            }
        }
    }
    assert forall|a: int, b: int|
        0 <= a < b < r.len() && is_v6_text(#[trigger] r[a]) == is_v6_text(
            #[trigger] r[b],
        ) implies {
        let x = r[a];
        let y = r[b];
        &&& is_new(new_ips, y) ==> is_new(new_ips, x)
        &&& !is_new(new_ips, x) ==> find_text(ips, x) < find_text(ips, y)
    } by {
        let x = r[a];
        let y = r[b];
        assert(x == whole[a] && y == whole[b]);
        assert(in_order(all, x, y)) by {
            if b < six.len() {
                assert(x == six[a] && y == six[b]);
            } else {
                assert(y == four[b - six.len()]);
                assert(a >= six.len()) by {
                    if a < six.len() {
                        assert(x == six[a]);
                    }
                }
                assert(x == four[a - six.len()]);
            }
        }
        let (i, j) = choose|i: int, j: int|
            0 <= i < j < all.len() && #[trigger] all[i] == x && #[trigger] all[j] == y;
        if is_new(new_ips, y) {
            let k = fresh.index_of(y);
            assert(all[k] == y);
            assert(k == j);
            assert(fresh[i] == x);
        }
        if !is_new(new_ips, x) {
            assert(i >= fresh.len()) by {
                if i < fresh.len() {
                    assert(fresh[i] == x);
                }
            }
        }
    }
}

} // verus!
