//! Percent encoding, and the query part of a link.

use vstd::prelude::*;
use vstd::utf8::{encode_utf8, is_ascii_chars, is_ascii_chars_encode_utf8};

use crate::crypto::id::{hex_digit_value, is_hex};
use crate::proto::{from_utf8_lossy, lemma_lossy_text, lossy_text};
use crate::scan::{find_char, find_char_at, lemma_find_char};
use crate::text::{chars_of, same_text, text_between};

verus! {

// ---------- encoding ----------

/// Whether a byte stands for itself: a letter, a digit or one of `-_.~`.
pub open spec fn is_unreserved(b: u8) -> bool {
    ||| '0' as int <= b <= '9' as int
    ||| 'a' as int <= b <= 'z' as int
    ||| 'A' as int <= b <= 'Z' as int
    ||| b == '-' as int
    ||| b == '_' as int
    ||| b == '.' as int
    ||| b == '~' as int
}

/// The upper-case hexadecimal digit of a value below 16.
pub open spec fn upper_hex(n: int) -> char {
    if n < 10 {
        ('0' as int + n) as char
    } else {
        ('A' as int + n - 10) as char
    }
}

/// One byte, as itself or as `%XX`.
pub open spec fn pct_char(b: u8) -> Seq<char> {
    if is_unreserved(b) {
        seq![b as char]
    } else {
        seq!['%', upper_hex(b as int / 16), upper_hex(b as int % 16)]
    }
}

/// Bytes in percent encoding.
pub open spec fn pct_text(b: Seq<u8>) -> Seq<char>
    decreases b.len(),
{
    if b.len() == 0 {
        Seq::empty()
    } else {
        pct_char(b[0]) + pct_text(b.skip(1))
    }
}

/// A text in percent encoding.
pub open spec fn pct_encoded(s: Seq<char>) -> Seq<char> {
    pct_text(encode_utf8(s))
}

fn upper_hex_digit(n: u8) -> (c: char)
    requires
        n < 16,
    ensures
        c == upper_hex(n as int),
{
    if n < 10 {
        (48 + n) as char
    } else {
        (65 + (n - 10)) as char
    }
}

/// Writes a text in percent encoding.
pub fn pct_encode(s: &str) -> (r: String)
    ensures
        r@ == pct_encoded(s@),
{
    let b = s.as_bytes();
    let ghost all = b@;
    let mut out = String::new();
    let mut i: usize = 0;
    assert(all.skip(0) =~= all);
    while i < b.len()
        invariant
            i <= b@.len(),
            b@ == all,
            out@ + pct_text(all.skip(i as int)) == pct_text(all),
        decreases b@.len() - i,
    {
        let c: u8 = b[i];
        let ghost before = out@;
        let ghost rest = all.skip(i as int);
        assert(rest[0] == c);
        assert(rest.skip(1) =~= all.skip(i + 1));
        if (c >= 48 && c <= 57) || (c >= 97 && c <= 122) || (c >= 65 && c <= 90) || c == 45 || c
            == 95 || c == 46 || c == 126 {
            out.push(c as char);
        } else {
            out.push('%');
            out.push(upper_hex_digit(c / 16));
            out.push(upper_hex_digit(c % 16));
        }
        assert(out@ =~= before + pct_char(c));
        assert(out@ + pct_text(all.skip(i + 1)) =~= before + pct_text(rest));
        i = i + 1;
    }
    assert(all.skip(i as int) =~= Seq::<u8>::empty());
    assert(out@ =~= pct_text(all));
    out
}

// ---------- decoding ----------

/// The value of a hexadecimal digit.
pub fn hexv(b: u8) -> (r: Option<u8>)
    ensures
        r is Some <==> is_hex(b),
        r matches Some(v) ==> v == hex_digit_value(b) && v < 16,
{
    if b >= 48 && b <= 57 {
        Some(b - 48)
    } else if b >= 97 && b <= 102 {
        Some(b - 97 + 10)
    } else if b >= 65 && b <= 70 {
        Some(b - 65 + 10)
    } else {
        None
    }
}

/// Whether bytes begin with `%XX`.
pub open spec fn is_escape(b: Seq<u8>) -> bool {
    b.len() >= 3 && b[0] == '%' as int && is_hex(b[1]) && is_hex(b[2])
}

/// The bytes with every `%XX` replaced; a percent sign without two digits
/// stands for itself.
pub open spec fn pct_bytes(b: Seq<u8>) -> Seq<u8>
    decreases b.len(),
{
    if b.len() == 0 {
        Seq::empty()
    } else if is_escape(b) {
        seq![(hex_digit_value(b[1]) * 16 + hex_digit_value(b[2])) as u8] + pct_bytes(b.skip(3))
    } else {
        seq![b[0]] + pct_bytes(b.skip(1))
    }
}

/// The text that a text in percent encoding stands for.
pub open spec fn pct_decoded(s: Seq<char>) -> Seq<char> {
    lossy_text(pct_bytes(encode_utf8(s)))
}

/// Reads a text in percent encoding.
pub fn pct_decode(s: &str) -> (r: String)
    ensures
        r@ == pct_decoded(s@),
{
    let b = s.as_bytes();
    let ghost all = b@;
    let mut out: Vec<u8> = Vec::new();
    let mut i: usize = 0;
    assert(all.skip(0) =~= all);
    while i < b.len()
        invariant
            i <= b@.len(),
            b@ == all,
            out@ + pct_bytes(all.skip(i as int)) == pct_bytes(all),
        decreases b@.len() - i,
    {
        let ghost before = out@;
        let ghost rest = all.skip(i as int);
        assert(rest[0] == b[i as int]);
        if b[i] == 37 && b.len() - i >= 3 {
            assert(rest[1] == b[i + 1]);
            assert(rest[2] == b[i + 2]);
            match (hexv(b[i + 1]), hexv(b[i + 2])) {
                (Some(h), Some(l)) => {
                    assert(rest.skip(3) =~= all.skip(i + 3));
                    out.push(h * 16 + l);
                    assert(out@ + pct_bytes(all.skip(i + 3)) =~= before + pct_bytes(rest));
                    i = i + 3;
                    continue;
                },
                _ => {},
            }
        }
        assert(!is_escape(rest));
        assert(rest.skip(1) =~= all.skip(i + 1));
        out.push(b[i]);
        assert(out@ + pct_bytes(all.skip(i + 1)) =~= before + pct_bytes(rest));
        i = i + 1;
    }
    assert(all.skip(i as int) =~= Seq::<u8>::empty());
    assert(out@ =~= pct_bytes(all));
    from_utf8_lossy(&out)
}

// ---------- round trip ----------

/// Percent encoding is ASCII without the characters that separate the parts
/// of a link.
pub proof fn lemma_pct_text(b: Seq<u8>)
    ensures
        is_ascii_chars(pct_text(b)),
        forall|i: int|
            0 <= i < pct_text(b).len() ==> is_pct_char(#[trigger] pct_text(b)[i]),
        b.len() > 0 ==> pct_text(b).len() > 0,
    decreases b.len(),
{
    if b.len() > 0 {
        lemma_pct_text(b.skip(1));
        let head = pct_char(b[0]);
        let t = pct_text(b);
        assert forall|i: int| 0 <= i < t.len() implies is_pct_char(#[trigger] t[i]) && '\0' <= t[i]
            <= '\u{7f}' by {
            if i < head.len() {
                assert(t[i] == head[i]);
            } else {
                assert(t[i] == pct_text(b.skip(1))[i - head.len()]);
            }
        }
    }
}

/// A character that percent encoding may hold.
pub open spec fn is_pct_char(c: char) -> bool {
    ||| '0' <= c <= '9'
    ||| 'a' <= c <= 'z'
    ||| 'A' <= c <= 'Z'
    ||| c == '-'
    ||| c == '_'
    ||| c == '.'
    ||| c == '~'
    ||| c == '%'
}

proof fn lemma_pct_bytes(b: Seq<u8>)
    ensures
        pct_bytes(encode_utf8(pct_text(b))) == b,
    decreases b.len(),
{
    lemma_pct_text(b);
    let t = pct_text(b);
    let u = encode_utf8(t);
    is_ascii_chars_encode_utf8(t);
    if b.len() > 0 {
        let rest = b.skip(1);
        lemma_pct_bytes(rest);
        lemma_pct_text(rest);
        let v = encode_utf8(pct_text(rest));
        is_ascii_chars_encode_utf8(pct_text(rest));
        let head = pct_char(b[0]);
        assert(t.skip(head.len() as int) =~= pct_text(rest));
        assert(u[0] == t[0] as u8);
        if is_unreserved(b[0]) {
            assert(u.skip(1) =~= v);
            assert(t[0] == b[0] as char);
            assert(pct_bytes(u) =~= seq![b[0]] + pct_bytes(v));
        } else {
            assert(t[1] == head[1] && t[2] == head[2]);
            assert(u[1] == t[1] as u8 && u[2] == t[2] as u8);
            assert(u.skip(3) =~= v);
            assert(is_escape(u));
        }
        assert(pct_bytes(u) =~= b);
    } else {
        assert(u =~= Seq::<u8>::empty());
        assert(pct_bytes(u) =~= b);
    }
}

/// A text in percent encoding reads back as that text.
pub proof fn law_pct_round_trip(s: Seq<char>)
    ensures
        pct_decoded(pct_encoded(s)) == s,
{
    lemma_pct_bytes(encode_utf8(s));
    lemma_lossy_text(s);
}

/// An ASCII text without percent signs stands for itself.
pub proof fn lemma_plain(s: Seq<char>)
    requires
        is_ascii_chars(s),
        forall|i: int| 0 <= i < s.len() ==> s[i] != '%',
    ensures
        pct_decoded(s) == s,
{
    is_ascii_chars_encode_utf8(s);
    let u = encode_utf8(s);
    assert forall|i: int| 0 <= i < u.len() implies #[trigger] u[i] != '%' as int by {
        assert(u[i] == s[i] as u8);
    }
    lemma_plain_bytes(u);
    lemma_lossy_text(s);
}

proof fn lemma_plain_bytes(u: Seq<u8>)
    requires
        forall|i: int| 0 <= i < u.len() ==> #[trigger] u[i] != '%' as int,
    ensures
        pct_bytes(u) == u,
    decreases u.len(),
{
    if u.len() > 0 {
        assert(u[0] != '%' as int);
        assert forall|i: int| 0 <= i < u.skip(1).len() implies #[trigger] u.skip(1)[i]
            != '%' as int by {
            assert(u.skip(1)[i] == u[i + 1]);
        }
        lemma_plain_bytes(u.skip(1));
        assert(pct_bytes(u) =~= u);
    } else {
        assert(pct_bytes(u) =~= u);
    }
}

// ---------- parameters ----------

/// The parameter that a piece of a query holds: a name and a value around an
/// equals sign.
pub open spec fn param_of(s: Seq<char>) -> Seq<(Seq<char>, Seq<char>)> {
    let i = find_char(s, '=');
    if i < s.len() {
        seq![(pct_decoded(s.take(i)), pct_decoded(s.skip(i + 1)))]
    } else {
        Seq::empty()
    }
}

/// The parameters of a query, joined by ampersands.
pub open spec fn params_of(q: Seq<char>) -> Seq<(Seq<char>, Seq<char>)>
    decreases q.len(),
{
    let i = find_char(q, '&');
    proof {
        lemma_find_char(q, '&');
    }
    if i < q.len() {
        param_of(q.take(i)) + params_of(q.skip(i + 1))
    } else {
        param_of(q)
    }
}

/// The contents of a list of parameters.
pub open spec fn param_views(v: Seq<(String, String)>) -> Seq<(Seq<char>, Seq<char>)> {
    Seq::new(v.len(), |i: int| (v[i].0@, v[i].1@))
}

fn push_param(out: &mut Vec<(String, String)>, piece: &[char])
    ensures
        param_views(final(out)@) == param_views(old(out)@) + param_of(piece@),
{
    let ghost before = param_views(out@);
    let i: usize = find_char_at(piece, '=');
    proof {
        lemma_find_char(piece@, '=');
    }
    if i < piece.len() {
        let k = text_between(piece, 0, i);
        let v = text_between(piece, i + 1, piece.len());
        assert(k@ =~= piece@.take(i as int));
        assert(v@ =~= piece@.skip(i + 1));
        out.push((pct_decode(&k), pct_decode(&v)));
    }
    assert(param_views(out@) =~= before + param_of(piece@));
}

/// Reads the parameters of a query; pieces without an equals sign do not
/// count.
pub fn parse_query(q: &str) -> (r: Vec<(String, String)>)
    ensures
        param_views(r@) == params_of(q@),
{
    let c = chars_of(q);
    let mut out: Vec<(String, String)> = Vec::new();
    let mut start: usize = 0;
    assert(param_views(out@) =~= Seq::<(Seq<char>, Seq<char>)>::empty());
    assert(c@.skip(0) =~= c@);
    loop
        invariant_except_break
            start <= c@.len(),
            param_views(out@) + params_of(c@.skip(start as int)) == params_of(c@),
        ensures
            param_views(out@) == params_of(c@),
        decreases c@.len() - start,
    {
        let rest = &c[start..c.len()];
        assert(rest@ =~= c@.skip(start as int));
        let ghost before = param_views(out@);
        let i: usize = find_char_at(rest, '&');
        proof {
            lemma_find_char(rest@, '&');
        }
        if i >= rest.len() {
            push_param(&mut out, rest);
            break;
        }
        let piece = &rest[0..i];
        assert(piece@ =~= rest@.take(i as int));
        push_param(&mut out, piece);
        assert(rest@.skip(i + 1) =~= c@.skip(start + i + 1));
        assert(param_views(out@) + params_of(c@.skip(start + i + 1)) =~= before + params_of(rest@));
        start = start + i + 1;
    }
    out
}

/// The value of the first parameter with a name, if it is not empty.
pub open spec fn param_value(v: Seq<(Seq<char>, Seq<char>)>, name: Seq<char>) -> Option<Seq<char>>
    decreases v.len(),
{
    if v.len() == 0 {
        None
    } else if v[0].0 == name {
        if v[0].1.len() == 0 {
            None
        } else {
            Some(v[0].1)
        }
    } else {
        param_value(v.skip(1), name)
    }
}

/// Looks up a parameter.
pub fn find_param(v: &Vec<(String, String)>, name: &str) -> (r: Option<String>)
    ensures
        match param_value(param_views(v@), name@) {
            Some(t) => r matches Some(x) && x@ == t,
            None => r is None,
        },
{
    let ghost all = param_views(v@);
    let mut i: usize = 0;
    assert(all.skip(0) =~= all);
    while i < v.len()
        invariant
            i <= v@.len(),
            all == param_views(v@),
            param_value(all.skip(i as int), name@) == param_value(all, name@),
        decreases v@.len() - i,
    {
        let ghost rest = all.skip(i as int);
        assert(rest[0] == (v@[i as int].0@, v@[i as int].1@));
        assert(rest.skip(1) =~= all.skip(i + 1));
        if same_text(&v[i].0, name) {
            if v[i].1.as_str().is_empty() {
                return None;
            }
            return Some(v[i].1.clone());
        }
        i = i + 1;
    }
    None
}

} // verus!
