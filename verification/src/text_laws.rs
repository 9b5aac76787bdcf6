//! What holds of texts that are trimmed, joined and padded.

use vstd::prelude::*;

use crate::text::{is_white_space, joined, padded, trimmed, trimmed_end, trimmed_start};

verus! {

proof fn lemma_trimmed_start(s: Seq<char>) -> (a: int)
    ensures
        0 <= a <= s.len(),
        trimmed_start(s) == s.skip(a),
        forall|i: int| 0 <= i < a ==> is_white_space(#[trigger] s[i]),
        a < s.len() ==> !is_white_space(s[a]),
    decreases s.len(),
{
    if s.len() > 0 && is_white_space(s[0]) {
        let t = s.drop_first();
        let b = lemma_trimmed_start(t);
        assert(t.skip(b) =~= s.skip(b + 1));
        assert forall|i: int| 0 <= i < b + 1 implies is_white_space(#[trigger] s[i]) by {
            if i > 0 {
                assert(t[i - 1] == s[i]);
            }
        }
        if b < t.len() {
            assert(t[b] == s[b + 1]);
        }
        b + 1
    } else {
        assert(s.skip(0) =~= s);
        0
    }
}

proof fn lemma_trimmed_end(s: Seq<char>) -> (b: int)
    ensures
        0 <= b <= s.len(),
        trimmed_end(s) == s.take(b),
        forall|i: int| b <= i < s.len() ==> is_white_space(#[trigger] s[i]),
        b > 0 ==> !is_white_space(s[b - 1]),
    decreases s.len(),
{
    if s.len() > 0 && is_white_space(s.last()) {
        let t = s.drop_last();
        let b = lemma_trimmed_end(t);
        assert(t.take(b) =~= s.take(b));
        assert forall|i: int| b <= i < s.len() implies is_white_space(#[trigger] s[i]) by {
            if i < t.len() {
                assert(t[i] == s[i]);
            }
        }
        if b > 0 {
            assert(t[b - 1] == s[b - 1]);
        }
        b
    } else {
        assert(s.take(s.len() as int) =~= s);
        s.len() as int
    }
}

/// Whether a text stands at a place in another.
pub open spec fn stands_at(s: Seq<char>, a: int, part: Seq<char>) -> bool {
    0 <= a && a + part.len() <= s.len() && s.subrange(a, a + part.len()) == part
}

/// Trimming cuts out a part of the text that neither begins nor ends with white
/// space, and around which there is nothing else.
pub proof fn law_trimmed(s: Seq<char>) -> (a: int)
    ensures
        stands_at(s, a, trimmed(s)),
        forall|i: int| 0 <= i < a ==> is_white_space(#[trigger] s[i]),
        forall|i: int| a + trimmed(s).len() <= i < s.len() ==> is_white_space(#[trigger] s[i]),
        trimmed(s).len() > 0 ==> !is_white_space(trimmed(s)[0]) && !is_white_space(
            trimmed(s).last(),
        ),
        trimmed(trimmed(s)) == trimmed(s),
{
    let a = lemma_trimmed_start(s);
    let t = s.skip(a);
    let b = lemma_trimmed_end(t);
    let r = trimmed(s);
    assert(r == t.take(b));
    assert(s.subrange(a, a + r.len()) =~= r);
    assert forall|i: int| a + r.len() <= i < s.len() implies is_white_space(#[trigger] s[i]) by {
        assert(t[i - a] == s[i]);
    }
    if r.len() > 0 {
        assert(r[0] == s[a]);
        assert(r.last() == t[b - 1]);
    }
    let c = lemma_trimmed_start(r);
    if c > 0 {
        assert(is_white_space(r[0]));
    }
    assert(r.skip(0) =~= r);
    let d = lemma_trimmed_end(r);
    if d < r.len() {
        assert(is_white_space(r[r.len() - 1]));
    }
    assert(r.take(r.len() as int) =~= r);
    a
}

/// The length of texts with a separator between them.
pub open spec fn total_len(v: Seq<Seq<char>>) -> nat
    decreases v.len(),
{
    if v.len() == 0 {
        0
    } else {
        total_len(v.drop_last()) + v.last().len()
    }
}

/// Joined texts hold each of them, and between two of them the separator, in
/// their order and with nothing else.
pub proof fn law_joined(v: Seq<Seq<char>>, sep: Seq<char>, i: int)
    requires
        0 <= i < v.len(),
    ensures
        joined(v, sep).len() == total_len(v) + sep.len() * (v.len() - 1),
        stands_at(joined(v, sep), total_len(v.take(i)) + sep.len() * i, v[i]),
        i > 0 ==> stands_at(joined(v, sep), total_len(v.take(i)) + sep.len() * (i - 1), sep),
    decreases v.len(),
{
    let r = joined(v, sep);
    if v.len() == 1 {
        assert(v.take(0) =~= Seq::<Seq<char>>::empty());
        assert(v.drop_last() =~= Seq::<Seq<char>>::empty());
        assert(r.subrange(0, r.len() as int) =~= r);
        assert(sep.len() * 0 == 0) by (nonlinear_arith);
    } else {
        let t = v.drop_last();
        let n = t.len() as int;
        let f = joined(t, sep);
        law_joined(t, sep, 0);
        assert(sep.len() * (v.len() - 1) == sep.len() * (n - 1) + sep.len()) by (nonlinear_arith)
            requires
                v.len() - 1 == n,
        ;
        if i < n {
            law_joined(t, sep, i);
            assert(t.take(i) =~= v.take(i));
            let at = total_len(v.take(i)) + sep.len() * i;
            assert(r.subrange(at, at + v[i].len()) =~= f.subrange(at, at + v[i].len()));
            if i > 0 {
                let b = total_len(v.take(i)) + sep.len() * (i - 1);
                assert(r.subrange(b, b + sep.len()) =~= f.subrange(b, b + sep.len()));
            }
        } else {
            assert(v.take(i) =~= t);
            let b = total_len(t) + sep.len() * (n - 1);
            assert(f.len() == b);
            assert(r.subrange(b, b + sep.len()) =~= sep);
            let at = total_len(t) + sep.len() * n;
            assert(at == b + sep.len());
            assert(r.subrange(at, at + v[i].len()) =~= v[i]);
        }
    }
}

/// A padded text begins with the text, goes on with blanks only, and is as wide
/// as asked, or as the text if that is wider.
pub proof fn law_padded(s: Seq<char>, width: nat)
    ensures
        padded(s, width).len() == if s.len() < width {
            width
        } else {
            s.len()
        },
        forall|i: int| 0 <= i < s.len() ==> #[trigger] padded(s, width)[i] == s[i],
        forall|i: int| s.len() <= i < width ==> #[trigger] padded(s, width)[i] == ' ',
{
}

} // verus!
