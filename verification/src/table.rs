//! A small map that keeps its entries in the order in which their keys first
//! came.

use vstd::prelude::*;

use crate::bytes::same_array;
use crate::text::same_text;

verus! {

/// What can be the key of a [`Table`].
pub trait Key: View + Sized {
    fn same(&self, other: &Self) -> (r: bool)
        ensures
            r == (self@ == other@),
    ;

    fn dup(&self) -> (r: Self)
        ensures
            r@ == self@,
    ;
}

impl Key for [u8; 32] {
    fn same(&self, other: &Self) -> (r: bool) {
        same_array(self, other)
    }

    fn dup(&self) -> (r: Self) {
        *self
    }
}

impl Key for [u8; 16] {
    fn same(&self, other: &Self) -> (r: bool) {
        same_array(self, other)
    }

    fn dup(&self) -> (r: Self) {
        *self
    }
}

impl Key for String {
    fn same(&self, other: &Self) -> (r: bool) {
        same_text(self, other)
    }

    fn dup(&self) -> (r: Self) {
        self.clone()
    }
}

impl Key for u32 {
    fn same(&self, other: &Self) -> (r: bool) {
        *self == *other
    }

    fn dup(&self) -> (r: Self) {
        *self
    }
}

impl Key for ([u8; 32], u32) {
    fn same(&self, other: &Self) -> (r: bool) {
        same_array(&self.0, &other.0) && self.1 == other.1
    }

    fn dup(&self) -> (r: Self) {
        (self.0, self.1)
    }
}

/// Index of the first entry with a key, the length where there is none.
pub open spec fn key_index<A, B>(s: Seq<(A, B)>, k: A) -> int
    decreases s.len(),
{
    if s.len() == 0 || s[0].0 == k {
        0
    } else {
        1 + key_index(s.drop_first(), k)
    }
}

/// Whether there is an entry with a key.
pub open spec fn has_key<A, B>(s: Seq<(A, B)>, k: A) -> bool {
    key_index(s, k) < s.len()
}

/// The value of a key.
pub open spec fn lookup<A, B>(s: Seq<(A, B)>, k: A) -> Option<B> {
    if has_key(s, k) {
        Some(s[key_index(s, k)].1)
    } else {
        None
    }
}

/// The entries with a value set: in place where the key is there, else at the
/// end.
pub open spec fn put<A, B>(s: Seq<(A, B)>, k: A, v: B) -> Seq<(A, B)> {
    if has_key(s, k) {
        s.update(key_index(s, k), (k, v))
    } else {
        s.push((k, v))
    }
}

/// The entries without a key.
pub open spec fn without<A, B>(s: Seq<(A, B)>, k: A) -> Seq<(A, B)>
    decreases s.len(),
{
    if s.len() == 0 {
        s
    } else if s.last().0 == k {
        without(s.drop_last(), k)
    } else {
        without(s.drop_last(), k).push(s.last())
    }
}

/// No key occurs twice.
pub open spec fn distinct_keys<A, B>(s: Seq<(A, B)>) -> bool {
    forall|i: int, j: int| 0 <= i < j < s.len() ==> (#[trigger] s[i]).0 != (#[trigger] s[j]).0
}

pub proof fn lemma_key_index<A, B>(s: Seq<(A, B)>, k: A)
    ensures
        0 <= key_index(s, k) <= s.len(),
        forall|j: int| 0 <= j < key_index(s, k) ==> (#[trigger] s[j]).0 != k,
        key_index(s, k) < s.len() ==> s[key_index(s, k)].0 == k,
    decreases s.len(),
{
    if s.len() > 0 && s[0].0 != k {
        let t = s.drop_first();
        lemma_key_index(t, k);
        assert forall|j: int| 0 <= j < key_index(s, k) implies (#[trigger] s[j]).0 != k by {
            if j > 0 {
                assert(t[j - 1] == s[j]);
            }
        }
    }
}

pub proof fn lemma_key_index_is<A, B>(s: Seq<(A, B)>, k: A, i: int)
    requires
        0 <= i <= s.len(),
        forall|j: int| 0 <= j < i ==> (#[trigger] s[j]).0 != k,
        i < s.len() ==> s[i].0 == k,
    ensures
        key_index(s, k) == i,
{
    lemma_key_index(s, k);
}

/// Every entry of `without(s, k)` is an entry of `s` with another key.
pub proof fn lemma_without<A, B>(s: Seq<(A, B)>, k: A)
    ensures
        without(s, k).len() <= s.len(),
        forall|i: int|
            0 <= i < without(s, k).len() ==> (#[trigger] without(s, k)[i]).0 != k && s.contains(
                without(s, k)[i],
            ),
        !has_key(s, k) ==> without(s, k) == s,
    decreases s.len(),
{
    lemma_key_index(s, k);
    if s.len() > 0 {
        let t = s.drop_last();
        lemma_without(t, k);
        lemma_key_index(t, k);
        let r = without(s, k);
        assert forall|i: int| 0 <= i < r.len() implies (#[trigger] r[i]).0 != k && s.contains(
            r[i],
        ) by {
            if i < without(t, k).len() {
                assert(r[i] == without(t, k)[i]);
                let j = t.index_of(r[i]);
                assert(s[j] == r[i]);
            } else {
                assert(s[s.len() - 1] == r[i]);
            }
        }
        if !has_key(s, k) {
            assert forall|j: int| 0 <= j < t.len() implies (#[trigger] t[j]).0 != k by {
                assert(t[j] == s[j]);
            }
            lemma_key_index_is(t, k, t.len() as int);
            assert(s[s.len() - 1].0 != k);
            assert(r =~= s);
        }
    }
}

pub proof fn lemma_lookup_push<A, B>(s: Seq<(A, B)>, e: (A, B), k: A)
    ensures
        lookup(s.push(e), k) == if has_key(s, k) {
            lookup(s, k)
        } else if e.0 == k {
            Some(e.1)
        } else {
            None
        },
{
    lemma_key_index(s, k);
    let p = s.push(e);
    if has_key(s, k) {
        lemma_key_index_is(p, k, key_index(s, k));
    } else if e.0 == k {
        lemma_key_index_is(p, k, s.len() as int);
    } else {
        lemma_key_index_is(p, k, p.len() as int);
    }
}

proof fn lemma_without_other<A, B>(s: Seq<(A, B)>, k: A, other: A)
    requires
        other != k,
    ensures
        lookup(without(s, k), other) == lookup(s, other),
        distinct_keys(s) ==> distinct_keys(without(s, k)),
    decreases s.len(),
{
    if s.len() > 0 {
        let t = s.drop_last();
        assert(s =~= t.push(s.last()));
        lemma_without_other(t, k, other);
        lemma_lookup_push(t, s.last(), other);
        lemma_lookup_push(without(t, k), s.last(), other);
        lemma_without(t, k);
        if distinct_keys(s) {
            assert forall|i: int, j: int| 0 <= i < j < t.len() implies (#[trigger] t[i]).0 != (
            #[trigger] t[j]).0 by {
                assert(t[i] == s[i] && t[j] == s[j]);
            }
            let r = without(s, k);
            assert forall|i: int, j: int| 0 <= i < j < r.len() implies (#[trigger] r[i]).0 != (
            #[trigger] r[j]).0 by {
                if j == without(t, k).len() {
                    assert(r[i] == without(t, k)[i]);
                    let m = t.index_of(r[i]);
                    assert(s[m] == r[i]);
                    assert(r[j] == s[s.len() - 1]);
                } else {
                    assert(r[i] == without(t, k)[i] && r[j] == without(t, k)[j]);
                }
            }
        }
    }
}

/// What was put under a key is found there, what was removed is not, other
/// keys keep their values, and no key ever occurs twice.
pub proof fn law_table<A, B>(s: Seq<(A, B)>, k: A, v: B, other: A)
    requires
        other != k,
    ensures
        lookup(put(s, k, v), k) == Some(v),
        lookup(without(s, k), k) is None,
        lookup(put(s, k, v), other) == lookup(s, other),
        lookup(without(s, k), other) == lookup(s, other),
        distinct_keys(s) ==> distinct_keys(put(s, k, v)) && distinct_keys(without(s, k)),
{
    lemma_without_other(s, k, other);
    lemma_key_index(s, k);
    lemma_key_index(s, other);
    let p = put(s, k, v);
    if has_key(s, k) {
        lemma_key_index_is(p, k, key_index(s, k));
        if other != k {
            lemma_key_index_is(p, other, key_index(s, other));
        }
    } else {
        lemma_key_index_is(p, k, s.len() as int);
        if other != k {
            if has_key(s, other) {
                lemma_key_index_is(p, other, key_index(s, other));
            } else {
                lemma_key_index_is(p, other, p.len() as int);
            }
        }
    }
    lemma_without(s, k);
    lemma_key_index(without(s, k), k);
}

pub struct Table<K: Key, V: View> {
    pub entries: Vec<(K, V)>,
}

/// The contents of a list of entries.
pub open spec fn entry_views<K: Key, V: View>(e: Seq<(K, V)>) -> Seq<(K::V, V::V)> {
    Seq::new(e.len(), |i: int| (e[i].0@, e[i].1@))
}

impl<K: Key, V: View> View for Table<K, V> {
    type V = Seq<(K::V, V::V)>;

    open spec fn view(&self) -> Seq<(K::V, V::V)> {
        entry_views(self.entries@)
    }
}

impl<K: Key, V: View> Table<K, V> {
    pub fn new() -> (r: Self)
        ensures
            r@ == Seq::<(K::V, V::V)>::empty(),
    {
        let r = Table { entries: Vec::new() };
        assert(r@ =~= Seq::<(K::V, V::V)>::empty());
        r
    }

    pub fn len(&self) -> (n: usize)
        ensures
            n == self@.len(),
    {
        self.entries.len()
    }

    /// Index of a key, the length where it is not there.
    pub fn find(&self, k: &K) -> (i: usize)
        ensures
            i == key_index(self@, k@),
            i <= self@.len(),
    {
        let mut i: usize = 0;
        while i < self.entries.len() && !self.entries[i].0.same(k)
            invariant
                i <= self.entries@.len(),
                forall|j: int| 0 <= j < i ==> (#[trigger] self@[j]).0 != k@,
            decreases self.entries@.len() - i,
        {
            i = i + 1;
        }
        proof {
            if i < self.entries@.len() {
                assert(self@[i as int].0 == k@);
            }
            lemma_key_index_is(self@, k@, i as int);
        }
        i
    }

    pub fn contains(&self, k: &K) -> (r: bool)
        ensures
            r == has_key(self@, k@),
    {
        self.find(k) < self.entries.len()
    }

    pub fn get(&self, k: &K) -> (r: Option<&V>)
        ensures
            match lookup(self@, k@) {
                Some(v) => r matches Some(x) && x@ == v,
                None => r is None,
            },
    {
        let i: usize = self.find(k);
        if i < self.entries.len() {
            Some(&self.entries[i].1)
        } else {
            None
        }
    }

    /// The value at an index, to be changed in place.
    pub fn value_mut(&mut self, i: usize) -> (r: &mut V)
        requires
            i < old(self)@.len(),
        ensures
            r@ == old(self)@[i as int].1,
            final(self)@ == old(self)@.update(i as int, (old(self)@[i as int].0, final(r)@)),
    {
        let r = &mut self.entries[i].1;
        r
    }

    pub fn insert(&mut self, k: K, v: V)
        ensures
            final(self)@ == put(old(self)@, k@, v@),
    {
        let i: usize = self.find(&k);
        let ghost before = self@;
        let ghost e = (k@, v@);
        if i < self.entries.len() {
            self.entries[i] = (k, v);
            assert(self@ =~= before.update(i as int, e));
        } else {
            self.entries.push((k, v));
            assert(self@ =~= before.push(e));
        }
    }

    pub fn remove(&mut self, k: &K) -> (r: Option<V>)
        ensures
            final(self)@ == without(old(self)@, k@),
            match lookup(old(self)@, k@) {
                Some(v) => r matches Some(x) && x@ == v,
                None => r is None,
            },
    {
        let ghost all = self@;
        let mut found: Option<V> = None;
        let mut i: usize = 0;
        let ghost mut done: int = 0;
        assert(self@ =~= without(all.take(0), k@) + all.skip(0));
        proof {
            lemma_key_index(all, k@);
        }
        while i < self.entries.len()
            invariant
                0 <= done <= all.len(),
                i <= self.entries@.len(),
                self.entries@.len() - i == all.len() - done,
                i == without(all.take(done), k@).len(),
                self@ == without(all.take(done), k@) + all.skip(done),
                0 <= key_index(all, k@) <= all.len(),
                forall|j: int| 0 <= j < key_index(all, k@) ==> (#[trigger] all[j]).0 != k@,
                key_index(all, k@) < all.len() ==> all[key_index(all, k@)].0 == k@,
                found is Some <==> key_index(all, k@) < done,
                found matches Some(x) ==> x@ == all[key_index(all, k@)].1,
            decreases self.entries@.len() - i,
        {
            let ghost kept = without(all.take(done), k@);
            assert(self@[i as int] == all[done]);
            assert(all.take(done + 1).drop_last() =~= all.take(done));
            if self.entries[i].0.same(k) {
                let ghost whole = self@;
                let e = self.entries.remove(i);
                assert(self@ =~= whole.remove(i as int));
                assert(self@ =~= kept + all.skip(done + 1));
                if found.is_none() {
                    found = Some(e.1);
                }
            } else {
                assert(self@ =~= kept.push(all[done]) + all.skip(done + 1));
                i = i + 1;
            }
            proof {
                done = done + 1;
            }
        }
        assert(all.take(done) =~= all);
        assert(self@ =~= without(all, k@));
        found
    }
}

} // verus!
