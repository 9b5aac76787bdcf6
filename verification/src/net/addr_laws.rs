//! Which texts are addresses, and which addresses are of use.

use vstd::prelude::*;

use crate::net::ip::{
    addr6_of, addr_of, ip4_of, ip4_text, ip6_of, ip6_text, ip_text, is_v4_mapped, octet_of,
    octets_of, sockaddr_of, IpView,
};
use crate::net::ip_laws::{
    is_ip6_char, law_ip4_round_trip, law_ip6_round_trip, law_ip_round_trip, lemma_ip6_colon,
};
use crate::net::socket::{parsed_addr, public_v4, reachable};
use crate::scan::{all_digits, find_char, hex_val, is_digit, lemma_decimal, lemma_find_char, number};
use crate::text::{decimal, is_white_space, lemma_trimmed_id};

verus! {

// ---------- IPv4 addresses are written in one way ----------

proof fn lemma_digits_back(s: Seq<char>)
    requires
        s.len() > 0,
        all_digits(s),
        s.len() > 1 ==> s[0] != '0',
    ensures
        decimal(number(s, 10)) == s,
        s[0] != '0' ==> number(s, 10) > 0,
    decreases s.len(),
{
    let d = s.last();
    assert(is_digit(s[s.len() - 1]));
    let v = hex_val(d);
    if s.len() == 1 {
        assert(s.drop_last() =~= Seq::<char>::empty());
        assert(number(s.drop_last(), 10) == 0);
        assert(number(s, 10) == v);
        assert(decimal(v) =~= s);
    } else {
        let t = s.drop_last();
        assert forall|i: int| 0 <= i < t.len() implies is_digit(#[trigger] t[i]) by {
            assert(s[i] == t[i]);
        }
        assert(t[0] == s[0]);
        lemma_digits_back(t);
        let n = number(t, 10);
        assert(n > 0);
        assert(number(s, 10) == n * 10 + v);
        assert((n * 10 + v) / 10 == n);
        assert((n * 10 + v) % 10 == v);
        assert(decimal(number(s, 10)) =~= s);
    }
}

proof fn lemma_octet_back(s: Seq<char>)
    ensures
        octet_of(s) matches Some(o) ==> s == decimal(o as nat),
{
    if octet_of(s) is Some {
        lemma_digits_back(s);
    }
}

proof fn lemma_octets_back(s: Seq<char>, n: nat)
    requires
        n >= 1,
    ensures
        octets_of(s, n) matches Some(o) ==> o.len() == n && s == dotted(o),
    decreases n,
{
    if octets_of(s, n) is Some {
        let o = octets_of(s, n)->0;
        if n == 1 {
            lemma_octet_back(s);
            assert(dotted(o) == s);
        } else {
            let i = find_char(s, '.');
            lemma_find_char(s, '.');
            lemma_octet_back(s.take(i));
            lemma_octets_back(s.skip(i + 1), (n - 1) as nat);
            let rest = octets_of(s.skip(i + 1), (n - 1) as nat)->0;
            assert(o.drop_first() =~= rest);
            assert(s =~= s.take(i) + seq!['.'] + s.skip(i + 1));
        }
    }
}

/// Numbers in decimal with dots between them.
pub open spec fn dotted(o: Seq<u8>) -> Seq<char>
    decreases o.len(),
{
    if o.len() == 0 {
        Seq::empty()
    } else if o.len() == 1 {
        decimal(o[0] as nat)
    } else {
        decimal(o[0] as nat) + seq!['.'] + dotted(o.drop_first())
    }
}

/// A text is an IPv4 address exactly if it is the written form of one: four
/// numbers below 256, without needless zeros, with dots between them.
pub proof fn law_ip4_is_canonical(s: Seq<char>)
    ensures
        match ip4_of(s) {
            Some(o) => o.len() == 4 && s == dotted(o) && s == ip4_text(o),
            None => forall|o: Seq<u8>| o.len() == 4 ==> s != #[trigger] ip4_text(o),
        },
{
    lemma_octets_back(s, 4);
    match ip4_of(s) {
        Some(o) => {
            reveal_with_fuel(dotted, 5);
            assert(o.drop_first().drop_first().drop_first()[0] == o[3]);
            assert(o.drop_first().drop_first()[0] == o[2]);
            assert(o.drop_first()[0] == o[1]);
            assert(dotted(o) =~= ip4_text(o));
        },
        None => {
            assert forall|o: Seq<u8>| o.len() == 4 implies s != #[trigger] ip4_text(o) by {
                law_ip4_round_trip(o);
            }
        },
    }
}

// ---------- addresses without a port ----------

/// An IP address without a port is read as an address with the default port.
pub proof fn law_default_port(ip: IpView, port: u16)
    requires
        match ip {
            IpView::V4(o) => o.len() == 4,
            IpView::V6(g) => g.len() == 8,
        },
    ensures
        parsed_addr(ip_text(ip), port) == Some(addr_of(ip, port)),
{
    reveal(parsed_addr);
    let t = ip_text(ip);
    law_ip_round_trip(ip);
    lemma_ip_chars(ip);
    lemma_trimmed_id(t);
    assert(sockaddr_of(t) is None) by {
        assert(addr6_of(t) is None);
        let i = find_char(t, ':');
        lemma_find_char(t, ':');
        if i < t.len() {
            let p = t.take(i);
            match ip {
                IpView::V4(_) => {
                    assert(is_digit(t[i]) || t[i] == '.');
                },
                IpView::V6(g) => {
                    lemma_find_char(p, '.');
                    let k = find_char(p, '.');
                    if k < p.len() {
                        assert(t[k] == '.');
                        assert(false);
                    }
                    assert(octets_of(p, 4) is None);
                },
            }
        }
    }
}

/// What an IP address is made of: no bracket, no blank at its ends, in an IPv4
/// address no colon, and in an IPv6 address no dot before the first colon.
proof fn lemma_ip_chars(ip: IpView)
    requires
        match ip {
            IpView::V4(o) => o.len() == 4,
            IpView::V6(g) => g.len() == 8,
        },
    ensures
        ({
            let t = ip_text(ip);
            &&& t.len() > 0
            &&& t[0] != '['
            &&& !is_white_space(t[0]) && !is_white_space(t.last())
            &&& ip is V4 ==> forall|j: int|
                0 <= j < t.len() ==> is_digit(#[trigger] t[j]) || t[j] == '.'
            &&& ip is V6 ==> forall|j: int|
                0 <= j < find_char(t, ':') ==> #[trigger] t[j] != '.'
        }),
{
    match ip {
        IpView::V4(o) => {
            lemma_decimal(o[0] as nat);
            lemma_decimal(o[1] as nat);
            lemma_decimal(o[2] as nat);
            lemma_decimal(o[3] as nat);
            let (a, b, c, d) = (
                decimal(o[0] as nat),
                decimal(o[1] as nat),
                decimal(o[2] as nat),
                decimal(o[3] as nat),
            );
            let t = ip4_text(o);
            assert(t == a + seq!['.'] + b + seq!['.'] + c + seq!['.'] + d);
            assert forall|j: int| 0 <= j < t.len() implies is_digit(#[trigger] t[j]) || t[j]
                == '.' by {
                if j < a.len() {
                    assert(t[j] == a[j]);
                } else if a.len() < j < a.len() + 1 + b.len() {
                    assert(t[j] == b[j - a.len() - 1]);
                } else if a.len() + b.len() + 1 < j < a.len() + b.len() + c.len() + 2 {
                    assert(t[j] == c[j - a.len() - b.len() - 2]);
                } else if a.len() + b.len() + c.len() + 2 < j {
                    assert(t[j] == d[j - a.len() - b.len() - c.len() - 3]);
                }
            }
            assert(is_digit(t[0]) || t[0] == '.');
            assert(is_digit(t[t.len() - 1]) || t[t.len() - 1] == '.');
        },
        IpView::V6(g) => {
            law_ip6_round_trip(g);
            let t = ip6_text(g);
            lemma_find_char(t, ':');
            lemma_find_char(t, '.');
            assert(t.len() > 0) by {
                if t.len() == 0 {
                    assert(ip6_of(t) is None);
                }
            }
            assert(is_ip6_char(t[0]) && is_ip6_char(t[t.len() - 1]));
            assert forall|j: int| 0 <= j < find_char(t, ':') implies #[trigger] t[j] != '.' by {
                if t[j] == '.' {
                    assert(find_char(t, '.') <= j);
                    lemma_ip6_colon(g);
                    let k = choose|k: int| 0 <= k < find_char(t, '.') && t[k] == ':';
                    assert(t[k] == ':');
                }
            }
        },
    }
}

// ---------- which addresses are of use ----------

/// An IPv4 address as a number.
pub open spec fn as_number(o: Seq<u8>) -> int {
    o[0] * 0x100_0000 + o[1] * 0x1_0000 + o[2] * 0x100 + o[3]
}

/// The public IPv4 addresses are all but 0.0.0.0, 10/8, 100.64/10, 127/8,
/// 169.254/16, 172.16/12, 192.168/16 and 224/4.
pub proof fn law_public_v4(o: Seq<u8>)
    requires
        o.len() == 4,
    ensures
        ({
            let n = as_number(o);
            public_v4(o) <==> !(n == 0 || 0x0a00_0000 <= n <= 0x0aff_ffff || 0x6440_0000 <= n
                <= 0x647f_ffff || 0x7f00_0000 <= n <= 0x7fff_ffff || 0xa9fe_0000 <= n
                <= 0xa9fe_ffff || 0xac10_0000 <= n <= 0xac1f_ffff || 0xc0a8_0000 <= n
                <= 0xc0a8_ffff || 0xe000_0000 <= n <= 0xefff_ffff)
        }),
{
}

/// Of the IPv4 addresses, all but 0.0.0.0, 169.254/16 and 224/4 can be reached;
/// a public one always can.
pub proof fn law_reachable_v4(o: Seq<u8>)
    requires
        o.len() == 4,
    ensures
        ({
            let n = as_number(o);
            reachable(IpView::V4(o)) <==> !(n == 0 || 0xa9fe_0000 <= n <= 0xa9fe_ffff
                || 0xe000_0000 <= n <= 0xefff_ffff)
        }),
        public_v4(o) ==> reachable(IpView::V4(o)),
{
}

/// Of the IPv6 addresses, those that begin with 0x0001 to 0xfbff and with
/// 0xfe00 to 0xfe7f or 0xfec0 to 0xfeff can be reached, and of those that begin
/// with zero only `::1` and the mapped ones.
pub proof fn law_reachable_v6(g: Seq<u16>)
    requires
        g.len() == 8,
    ensures
        g[0] != 0 ==> (reachable(IpView::V6(g)) <==> g[0] < 0xfc00 || 0xfe00 <= g[0] < 0xfe80
            || 0xfec0 <= g[0] < 0xff00),
        g[0] == 0 ==> (reachable(IpView::V6(g)) <==> is_v4_mapped(g) || g =~= seq![
            0u16,
            0u16,
            0u16,
            0u16,
            0u16,
            0u16,
            0u16,
            1u16,
        ]),
{
}

} // verus!
