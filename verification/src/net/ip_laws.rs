//! Addresses survive being written out and read back.

use vstd::prelude::*;

use crate::crypto::id::hex_digit;
use crate::net::ip::{
    addr4_of, addr_of, group_of, groups_of, groups_text, hex_number, ip4_of, ip4_segments,
    ip4_text, ip6_of, ip6_text, ip_of, ip_port_text, ip_text, is_v4_mapped, lemma_find_gap_is,
    longest_zeros, mapped_octets, octet_of, octets_of, scoped_of, side_of, sockaddr_of, zero_run,
    IpView,
};
use crate::scan::{
    all_hex, find_char, is_digit, is_hex_digit, lemma_decimal, lemma_find_char, lemma_find_char_is,
    number,
};
use crate::text::{decimal, is_white_space};

verus! {

/// A piece without `c`, then `c`: the first `c` ends the piece.
proof fn lemma_split(p: Seq<char>, c: char, r: Seq<char>)
    requires
        forall|j: int| 0 <= j < p.len() ==> p[j] != c,
    ensures
        find_char(p + seq![c] + r, c) == p.len(),
        (p + seq![c] + r).len() == p.len() + 1 + r.len(),
        (p + seq![c] + r).take(p.len() as int) == p,
        (p + seq![c] + r).skip(p.len() as int + 1) == r,
{
    let t = p + seq![c] + r;
    assert forall|j: int| 0 <= j < p.len() implies t[j] != c by {
        assert(t[j] == p[j]);
    }
    assert(t[p.len() as int] == c);
    lemma_find_char_is(t, c, p.len() as int);
    assert(t.take(p.len() as int) =~= p);
    assert(t.skip(p.len() as int + 1) =~= r);
}

/// A text without `c` has no first `c`.
proof fn lemma_absent(p: Seq<char>, c: char)
    requires
        forall|j: int| 0 <= j < p.len() ==> p[j] != c,
    ensures
        find_char(p, c) == p.len(),
{
    lemma_find_char_is(p, c, p.len() as int);
}

proof fn lemma_octet(n: u8)
    ensures
        octet_of(decimal(n as nat)) == Some(n),
        forall|j: int|
            0 <= j < decimal(n as nat).len() ==> is_digit(#[trigger] decimal(n as nat)[j]),
{
    lemma_decimal(n as nat);
}

/// An IPv4 address survives being written out and read back.
#[verifier::spinoff_prover]
#[verifier::rlimit(60)]
pub proof fn law_ip4_round_trip(o: Seq<u8>)
    requires
        o.len() == 4,
    ensures
        ip4_of(ip4_text(o)) == Some(o),
        forall|j: int|
            0 <= j < ip4_text(o).len() ==> is_digit(#[trigger] ip4_text(o)[j]) || ip4_text(o)[j]
                == '.',
        ip4_text(o).len() > 0,
        is_digit(ip4_text(o)[0]),
        is_digit(ip4_text(o).last()),
{
    let d0 = decimal(o[0] as nat);
    let d1 = decimal(o[1] as nat);
    let d2 = decimal(o[2] as nat);
    let d3 = decimal(o[3] as nat);
    lemma_octet(o[0]);
    lemma_octet(o[1]);
    lemma_octet(o[2]);
    lemma_octet(o[3]);
    lemma_decimal(o[0] as nat);
    lemma_decimal(o[3] as nat);
    let t2 = d2 + seq!['.'] + d3;
    let t1 = d1 + seq!['.'] + t2;
    let t0 = d0 + seq!['.'] + t1;
    assert(ip4_text(o) =~= t0);
    assert forall|j: int| 0 <= j < t0.len() implies is_digit(#[trigger] t0[j]) || t0[j]
        == '.' by {
        let (n0, n1, n2) = (d0.len() as int, d1.len() as int, d2.len() as int);
        if j < n0 {
            assert(t0[j] == d0[j]);
        } else if n0 < j < n0 + 1 + n1 {
            assert(t0[j] == d1[j - n0 - 1]);
        } else if n0 + n1 + 1 < j < n0 + n1 + n2 + 2 {
            assert(t0[j] == d2[j - n0 - n1 - 2]);
        } else if n0 + n1 + n2 + 2 < j {
            assert(t0[j] == d3[j - n0 - n1 - n2 - 3]);
        }
    }
    lemma_split(d2, '.', d3);
    lemma_split(d1, '.', t2);
    lemma_split(d0, '.', t1);
    assert(octets_of(d3, 1) == Some(seq![o[3]]));
    assert(octets_of(t2, 2) == Some(seq![o[2]] + seq![o[3]]));
    assert(octets_of(t1, 3) == Some(seq![o[1]] + (seq![o[2]] + seq![o[3]])));
    assert(seq![o[0]] + (seq![o[1]] + (seq![o[2]] + seq![o[3]])) =~= o);
    assert(ip4_text(o).last() == d3.last());
}

/// The hexadecimal digits of a number stand for it.
proof fn lemma_hex_number(n: nat)
    ensures
        hex_number(n).len() > 0,
        all_hex(hex_number(n)),
        number(hex_number(n), 16) == n,
        n < 0x10 ==> hex_number(n).len() <= 1,
        n < 0x100 ==> hex_number(n).len() <= 2,
        n < 0x1000 ==> hex_number(n).len() <= 3,
        n < 0x1_0000 ==> hex_number(n).len() <= 4,
    decreases n,
{
    if n < 16 {
        assert(hex_number(n).drop_last() =~= Seq::<char>::empty());
        assert(number(Seq::<char>::empty(), 16) == 0);
        assert(is_hex_digit(hex_digit(n as int)));
    } else {
        lemma_hex_number(n / 16);
        assert(hex_number(n).drop_last() =~= hex_number(n / 16));
        assert(is_hex_digit(hex_digit((n % 16) as int)));
    }
}

proof fn lemma_group(n: u16)
    ensures
        group_of(hex_number(n as nat)) == Some(n),
        hex_number(n as nat).len() > 0,
        all_hex(hex_number(n as nat)),
{
    lemma_hex_number(n as nat);
}

/// Groups are hexadecimal digits and single colons between them.
proof fn lemma_groups_text(g: Seq<u16>)
    ensures
        g.len() > 0 ==> groups_text(g).len() > 0 && is_hex_digit(groups_text(g)[0])
            && is_hex_digit(groups_text(g).last()),
        forall|j: int|
            0 <= j < groups_text(g).len() ==> is_hex_digit(#[trigger] groups_text(g)[j])
                || groups_text(g)[j] == ':',
        forall|j: int|
            0 <= j && j + 1 < groups_text(g).len() ==> !(groups_text(g)[j] == ':'
                && #[trigger] groups_text(g)[j + 1] == ':'),
    decreases g.len(),
{
    if g.len() == 1 {
        lemma_group(g[0]);
    } else if g.len() > 1 {
        lemma_group(g[0]);
        let rest = g.drop_first();
        lemma_groups_text(rest);
        let p = hex_number(g[0] as nat);
        let t = groups_text(g);
        let r = groups_text(rest);
        assert(t == p + seq![':'] + r);
        assert forall|j: int| 0 <= j < t.len() implies is_hex_digit(#[trigger] t[j]) || t[j]
            == ':' by {
            if j < p.len() {
                assert(t[j] == p[j]);
            } else if j > p.len() {
                assert(t[j] == r[j - p.len() - 1]);
            }
        }
        assert forall|j: int| 0 <= j && j + 1 < t.len() implies !(t[j] == ':' && #[trigger] t[j + 1]
            == ':') by {
            if j < p.len() {
                assert(t[j] == p[j]);
                assert(is_hex_digit(p[j]));
            } else if j == p.len() {
                assert(t[j + 1] == r[0]);
            } else {
                let k = j - p.len() - 1;
                assert(t[j] == r[k]);
                assert(t[j + 1] == r[k + 1]);
            }
        }
        assert(t.last() == r.last());
        assert(t[0] == p[0]);
    }
}

/// Groups survive being written out and read back.
proof fn lemma_groups(g: Seq<u16>, tail: bool)
    requires
        g.len() > 0,
    ensures
        groups_of(groups_text(g), tail) == Some(g),
    decreases g.len(),
{
    let p = hex_number(g[0] as nat);
    lemma_group(g[0]);
    assert forall|j: int| 0 <= j < p.len() implies p[j] != ':' && p[j] != '.' by {
        assert(is_hex_digit(p[j]));
    }
    if g.len() == 1 {
        lemma_absent(p, ':');
        lemma_absent(p, '.');
        assert(ip4_of(p) is None);
        assert(seq![g[0]] =~= g);
    } else {
        let rest = g.drop_first();
        lemma_groups(rest, tail);
        lemma_split(p, ':', groups_text(rest));
        assert(seq![g[0]] + rest =~= g);
    }
}

proof fn lemma_zero_run(g: Seq<u16>, i: int)
    requires
        0 <= i <= g.len(),
    ensures
        0 <= zero_run(g, i) <= g.len() - i,
        forall|j: int| i <= j < i + zero_run(g, i) ==> g[j] == 0,
    decreases g.len() - i,
{
    if i < g.len() && g[i] == 0 {
        lemma_zero_run(g, i + 1);
    }
}

proof fn lemma_longest_zeros(g: Seq<u16>, i: int)
    requires
        0 <= i < g.len(),
    ensures
        i <= longest_zeros(g, i) < g.len(),
    decreases g.len() - i,
{
    if i + 1 < g.len() {
        lemma_longest_zeros(g, i + 1);
    }
}

/// Characters of an IPv6 address.
pub open spec fn is_ip6_char(c: char) -> bool {
    is_hex_digit(c) || c == ':' || c == '.'
}

#[verifier::spinoff_prover]
#[verifier::rlimit(60)]
proof fn lemma_ip6_mapped(g: Seq<u16>)
    requires
        g.len() == 8,
        is_v4_mapped(g),
    ensures
        ip6_of(ip6_text(g)) == Some(g),
        forall|j: int| 0 <= j < ip6_text(g).len() ==> is_ip6_char(#[trigger] ip6_text(g)[j]),
{
    reveal_strlit("::ffff:");
    let t = ip6_text(g);
    let o = mapped_octets(g);
    law_ip4_round_trip(o);
    let v4 = ip4_text(o);
    lemma_find_gap_is(t, 0);
    assert(t.take(0) =~= Seq::<char>::empty());
    let p = seq!['f', 'f', 'f', 'f'];
    let rest = t.skip(2);
    assert(rest =~= p + seq![':'] + v4);
    lemma_split(p, ':', v4);
    assert(group_of(p) == Some(0xffffu16)) by {
        reveal_with_fuel(number, 5);
        assert(p.drop_last().drop_last().drop_last().drop_last() =~= Seq::<char>::empty());
    }
    lemma_absent(v4, ':');
    assert(groups_of(v4, true) == Some(ip4_segments(o)));
    assert(groups_of(rest, true) == Some(seq![0xffffu16] + ip4_segments(o)));
    let head = Seq::<u16>::empty();
    let tail = seq![0xffffu16] + ip4_segments(o);
    assert(head + Seq::new((8 - head.len() - tail.len()) as nat, |i: int| 0u16) + tail =~= g);
    assert forall|j: int| 0 <= j < t.len() implies is_ip6_char(#[trigger] t[j]) by {
        if j >= 7 {
            assert(t[j] == v4[j - 7]);
        }
    }
}

/// Two sides around `::` read back as they were written.
#[verifier::spinoff_prover]
#[verifier::rlimit(60)]
proof fn lemma_ip6_gap(h: Seq<u16>, r: Seq<u16>)
    requires
        h.len() + r.len() <= 7,
    ensures
        ({
            let t = groups_text(h) + "::"@ + groups_text(r);
            &&& ip6_of(t) == Some(
                h + Seq::new((8 - h.len() - r.len()) as nat, |i: int| 0u16) + r,
            )
            &&& forall|j: int| 0 <= j < t.len() ==> is_ip6_char(#[trigger] t[j])
        }),
{
    reveal_strlit("::");
    let ht = groups_text(h);
    let rt = groups_text(r);
    let t = ht + "::"@ + rt;
    lemma_groups_text(h);
    lemma_groups_text(r);
    assert(t =~= ht + seq![':', ':'] + rt);
    assert forall|j: int| 0 <= j < ht.len() && j + 1 < t.len() implies !(t[j] == ':'
        && #[trigger] t[j + 1] == ':') by {
        assert(t[j] == ht[j]);
        if j + 1 < ht.len() {
            assert(t[j + 1] == ht[j + 1]);
        } else {
            assert(is_hex_digit(ht.last()));
        }
    }
    lemma_find_gap_is(t, ht.len() as int);
    assert(t.take(ht.len() as int) =~= ht);
    assert(t.skip(ht.len() as int + 2) =~= rt);
    if h.len() > 0 {
        lemma_groups(h, false);
    } else {
        assert(h =~= Seq::<u16>::empty());
    }
    if r.len() > 0 {
        lemma_groups(r, true);
    } else {
        assert(r =~= Seq::<u16>::empty());
    }
    assert(side_of(ht, false) == Some(h));
    assert(side_of(rt, true) == Some(r));
    assert forall|j: int| 0 <= j < t.len() implies is_ip6_char(#[trigger] t[j]) by {
        if j < ht.len() {
            assert(t[j] == ht[j]);
        } else if j >= ht.len() + 2 {
            assert(t[j] == rt[j - ht.len() - 2]);
        }
    }
}

/// An IPv6 address survives being written out and read back.
#[verifier::spinoff_prover]
#[verifier::rlimit(60)]
pub proof fn law_ip6_round_trip(g: Seq<u16>)
    requires
        g.len() == 8,
    ensures
        ip6_of(ip6_text(g)) == Some(g),
        forall|j: int| 0 <= j < ip6_text(g).len() ==> is_ip6_char(#[trigger] ip6_text(g)[j]),
{
    let t = ip6_text(g);
    if is_v4_mapped(g) {
        lemma_ip6_mapped(g);
    } else {
        let z = longest_zeros(g, 0);
        lemma_longest_zeros(g, 0);
        let n = zero_run(g, z);
        lemma_zero_run(g, z);
        if n > 1 {
            let h = g.take(z);
            let r = g.skip(z + n);
            lemma_ip6_gap(h, r);
            assert(h + Seq::new((8 - h.len() - r.len()) as nat, |i: int| 0u16) + r =~= g);
        } else {
            lemma_groups_text(g);
            lemma_find_gap_is(t, t.len() as int);
            lemma_groups(g, true);
        }
    }
}

/// An IP address survives being written out and read back.
pub proof fn law_ip_round_trip(ip: IpView)
    requires
        match ip {
            IpView::V4(o) => o.len() == 4,
            IpView::V6(g) => g.len() == 8,
        },
    ensures
        ip_of(ip_text(ip)) == Some(ip),
{
    match ip {
        IpView::V4(o) => {
            law_ip4_round_trip(o);
        },
        IpView::V6(g) => {
            law_ip6_round_trip(g);
            lemma_ip6_not_ip4(g);
        },
    }
}

/// No IPv6 address reads as an IPv4 address: the part before its first dot,
/// if it has one, holds a colon.
proof fn lemma_ip6_not_ip4(g: Seq<u16>)
    requires
        g.len() == 8,
    ensures
        ip4_of(ip6_text(g)) is None,
{
    let t = ip6_text(g);
    lemma_find_char(t, '.');
    let i = find_char(t, '.');
    if i < t.len() {
        lemma_ip6_colon(g);
        let k = choose|k: int| 0 <= k < i && t[k] == ':';
        let p = t.take(i);
        assert(p[k] == ':');
        assert(!is_digit(p[k]));
        assert(octet_of(p) is None);
    }
}

/// A colon stands before the first dot of an IPv6 address.
pub proof fn lemma_ip6_colon(g: Seq<u16>)
    requires
        g.len() == 8,
        find_char(ip6_text(g), '.') < ip6_text(g).len(),
    ensures
        exists|k: int| 0 <= k < find_char(ip6_text(g), '.') && ip6_text(g)[k] == ':',
{
    reveal_strlit("::");
    reveal_strlit("::ffff:");
    let t = ip6_text(g);
    let i = find_char(t, '.');
    lemma_find_char(t, '.');
    if is_v4_mapped(g) {
        assert(t[0] == ':');
        assert(i > 0);
    } else {
        let z = longest_zeros(g, 0);
        lemma_longest_zeros(g, 0);
        let n = zero_run(g, z);
        lemma_zero_run(g, z);
        if n > 1 {
            lemma_groups_text(g.take(z));
            lemma_groups_text(g.skip(z + n));
            let ht = groups_text(g.take(z));
            let rt = groups_text(g.skip(z + n));
            if i < ht.len() {
                assert(t[i] == ht[i]);
            } else if i >= ht.len() + 2 {
                assert(t[i] == rt[i - ht.len() - 2]);
            }
        } else {
            lemma_groups_text(g);
        }
    }
}

/// An IP address and a port survive being written out and read back as a
/// socket address.
#[verifier::spinoff_prover]
#[verifier::rlimit(60)]
pub proof fn law_ip_port_round_trip(ip: IpView, port: u16)
    requires
        match ip {
            IpView::V4(o) => o.len() == 4,
            IpView::V6(g) => g.len() == 8,
        },
    ensures
        sockaddr_of(ip_port_text(ip, port)) == Some(addr_of(ip, port)),
        ip_port_text(ip, port).len() > 0,
        !is_white_space(ip_port_text(ip, port)[0]),
        !is_white_space(ip_port_text(ip, port).last()),
{
    reveal_strlit(":");
    reveal_strlit("[");
    reveal_strlit("]:");
    let d = decimal(port as nat);
    lemma_decimal(port as nat);
    let t = ip_port_text(ip, port);
    assert(t.last() == d.last());
    assert(is_digit(d.last()));
    match ip {
        IpView::V4(o) => {
            law_ip4_round_trip(o);
            let p = ip4_text(o);
            assert(t =~= p + seq![':'] + d);
            lemma_split(p, ':', d);
        },
        IpView::V6(g) => {
            law_ip6_round_trip(g);
            let p = ip6_text(g);
            assert(t =~= seq!['['] + p + seq![']', ':'] + d);
            // It is no IPv4 socket address: its first character is a bracket.
            lemma_find_char(t, ':');
            let i = find_char(t, ':');
            lemma_bracket_not_ip4(t.take(i));
            assert(addr4_of(t) is None);
            let front = seq!['['] + p;
            assert forall|j: int| 0 <= j < front.len() implies front[j] != ']' by {
                if j > 0 {
                    assert(front[j] == p[j - 1]);
                    assert(is_ip6_char(p[j - 1]));
                }
            }
            let back = seq![':'] + d;
            assert(t =~= front + seq![']'] + back);
            lemma_split(front, ']', back);
            assert(t.subrange(1, front.len() as int) =~= p);
            assert(t.skip(front.len() as int + 2) =~= d);
            assert forall|j: int| 0 <= j < p.len() implies p[j] != '%' by {
                assert(is_ip6_char(p[j]));
            }
            lemma_absent(p, '%');
            assert(scoped_of(p) == Some((g, 0u32)));
            assert(t[front.len() as int + 1] == ':');
        },
    }
}

/// A text that begins with a bracket is no IPv4 address.
proof fn lemma_bracket_not_ip4(s: Seq<char>)
    requires
        s.len() > 0 ==> s[0] == '[',
    ensures
        ip4_of(s) is None,
{
    lemma_find_char(s, '.');
    let i = find_char(s, '.');
    if i < s.len() {
        let p = s.take(i);
        if p.len() > 0 {
            assert(p[0] == '[');
            assert(!is_digit(p[0]));
        }
        assert(octet_of(p) is None);
    }
}

} // verus!
