//! IP addresses and socket addresses, and how they are written as text.
//!
//! The text forms are the usual ones: dotted decimal without leading zeros
//! for IPv4; groups of hexadecimal digits, `::` and an embedded IPv4 tail for
//! IPv6; `ip:port` and `[ip%scope]:port` for socket addresses.

use vstd::prelude::*;

use crate::scan::{
    all_hex, decimal_of, find_char, find_char_at, is_hex_digit, lemma_find_char, number,
    read_decimal, read_hex_digit,
};
use crate::crypto::id::hex_digit;
use crate::text::{decimal, push_decimal};

verus! {

/// An IP address.
#[derive(Clone, Copy, Debug, PartialEq, Eq)]
pub enum IpAddr {
    V4([u8; 4]),
    V6([u16; 8]),
}

/// A UDP endpoint.
#[derive(Clone, Copy, Debug, PartialEq, Eq)]
pub enum SocketAddr {
    V4 { octets: [u8; 4], port: u16 },
    V6 { segments: [u16; 8], port: u16, flowinfo: u32, scope_id: u32 },
}

/// The octets or segments of an [`IpAddr`].
#[verifier::ext_equal]
pub enum IpView {
    V4(Seq<u8>),
    V6(Seq<u16>),
}

/// The contents of a [`SocketAddr`].
#[verifier::ext_equal]
pub enum AddrView {
    V4 { octets: Seq<u8>, port: u16 },
    V6 { segments: Seq<u16>, port: u16, flowinfo: u32, scope_id: u32 },
}

impl View for IpAddr {
    type V = IpView;

    open spec fn view(&self) -> IpView {
        match self {
            IpAddr::V4(o) => IpView::V4(o@),
            IpAddr::V6(s) => IpView::V6(s@),
        }
    }
}

impl View for SocketAddr {
    type V = AddrView;

    open spec fn view(&self) -> AddrView {
        match self {
            SocketAddr::V4 { octets, port } => AddrView::V4 { octets: octets@, port: *port },
            SocketAddr::V6 { segments, port, flowinfo, scope_id } => AddrView::V6 {
                segments: segments@,
                port: *port,
                flowinfo: *flowinfo,
                scope_id: *scope_id,
            },
        }
    }
}

impl AddrView {
    /// The IP address without the port.
    pub open spec fn ip(self) -> IpView {
        match self {
            AddrView::V4 { octets, .. } => IpView::V4(octets),
            AddrView::V6 { segments, .. } => IpView::V6(segments),
        }
    }

    pub open spec fn port(self) -> u16 {
        match self {
            AddrView::V4 { port, .. } => port,
            AddrView::V6 { port, .. } => port,
        }
    }
}

/// The endpoint of an IP address and a port.
pub open spec fn addr_of(ip: IpView, port: u16) -> AddrView {
    match ip {
        IpView::V4(octets) => AddrView::V4 { octets, port },
        IpView::V6(segments) => AddrView::V6 { segments, port, flowinfo: 0, scope_id: 0 },
    }
}

impl SocketAddr {
    pub fn new(ip: IpAddr, port: u16) -> (r: Self)
        ensures
            r@ == addr_of(ip@, port),
    {
        match ip {
            IpAddr::V4(octets) => SocketAddr::V4 { octets, port },
            IpAddr::V6(segments) => SocketAddr::V6 { segments, port, flowinfo: 0, scope_id: 0 },
        }
    }

    pub fn ip(&self) -> (r: IpAddr)
        ensures
            r@ == self@.ip(),
    {
        match self {
            SocketAddr::V4 { octets, .. } => IpAddr::V4(*octets),
            SocketAddr::V6 { segments, .. } => IpAddr::V6(*segments),
        }
    }

    pub fn port(&self) -> (r: u16)
        ensures
            r == self@.port(),
    {
        match self {
            SocketAddr::V4 { port, .. } => *port,
            SocketAddr::V6 { port, .. } => *port,
        }
    }

    pub fn is_ipv6(&self) -> (r: bool)
        ensures
            r == (self@ is V6),
    {
        match self {
            SocketAddr::V4 { .. } => false,
            SocketAddr::V6 { .. } => true,
        }
    }
}


/// Position of the first `::`, the length where there is none.
pub open spec fn find_gap(s: Seq<char>) -> int
    decreases s.len(),
{
    if s.len() == 0 || (s.len() >= 2 && s[0] == ':' && s[1] == ':') {
        0
    } else {
        1 + find_gap(s.drop_first())
    }
}

pub proof fn lemma_find_gap(s: Seq<char>)
    ensures
        0 <= find_gap(s) <= s.len(),
        find_gap(s) < s.len() ==> find_gap(s) + 2 <= s.len(),
        forall|j: int| 0 <= j < find_gap(s) && j + 1 < s.len() ==> !(s[j] == ':' && #[trigger] s[j + 1] == ':'),
        find_gap(s) < s.len() ==> s[find_gap(s)] == ':' && s[find_gap(s) + 1] == ':',
    decreases s.len(),
{
    if s.len() > 0 && !(s.len() >= 2 && s[0] == ':' && s[1] == ':') {
        let t = s.drop_first();
        lemma_find_gap(t);
        assert forall|j: int| 0 <= j < find_gap(s) && j + 1 < s.len() implies !(s[j] == ':'
            && #[trigger] s[j + 1] == ':') by {
            if j > 0 {
                assert(t[j - 1] == s[j]);
                assert(t[(j - 1) + 1] == s[j + 1]);
            }
        }
    }
}

pub proof fn lemma_find_gap_is(s: Seq<char>, i: int)
    requires
        0 <= i <= s.len(),
        forall|j: int| 0 <= j < i && j + 1 < s.len() ==> !(s[j] == ':' && #[trigger] s[j + 1] == ':'),
        i < s.len() ==> i + 2 <= s.len() && s[i] == ':' && s[i + 1] == ':',
    ensures
        find_gap(s) == i,
{
    lemma_find_gap(s);
    let g = find_gap(s);
    if g < i {
        assert(s[g + 1] == ':');
    }
    if i < g {
        assert(s[i + 1] == ':');
    }
}

fn find_gap_at(s: &[char]) -> (i: usize)
    ensures
        i == find_gap(s@),
{
    let mut i: usize = 0;
    while i < s.len() && s.len() - i > 1 && !(s[i] == ':' && s[i + 1] == ':')
        invariant
            i <= s@.len(),
            forall|j: int| 0 <= j < i && j + 1 < s.len() ==> !(s@[j] == ':' && #[trigger] s@[j + 1] == ':'),
        decreases s@.len() - i,
    {
        i = i + 1;
    }
    if s.len() - i <= 1 {
        i = s.len();
    }
    proof {
        lemma_find_gap_is(s@, i as int);
    }
    i
}

// ---------- reading ----------

/// One part of a dotted IPv4 address: one to three digits without a leading
/// zero, no greater than 255.
pub open spec fn octet_of(s: Seq<char>) -> Option<u8> {
    if 1 <= s.len() <= 3 && (s.len() > 1 ==> s[0] != '0') {
        match decimal_of(s, 255) {
            Some(n) => Some(n as u8),
            None => None,
        }
    } else {
        None
    }
}

/// `n` octets joined by dots.
pub open spec fn octets_of(s: Seq<char>, n: nat) -> Option<Seq<u8>>
    decreases n,
{
    if n <= 1 {
        match octet_of(s) {
            Some(o) => Some(seq![o]),
            None => None,
        }
    } else {
        let i = find_char(s, '.');
        if i < s.len() {
            match (octet_of(s.take(i)), octets_of(s.skip(i + 1), (n - 1) as nat)) {
                (Some(o), Some(rest)) => Some(seq![o] + rest),
                _ => None,
            }
        } else {
            None
        }
    }
}

/// The octets of a dotted IPv4 address.
pub open spec fn ip4_of(s: Seq<char>) -> Option<Seq<u8>> {
    octets_of(s, 4)
}

/// One group of an IPv6 address: one to four hexadecimal digits.
pub open spec fn group_of(s: Seq<char>) -> Option<u16> {
    if 1 <= s.len() <= 4 && all_hex(s) {
        Some(number(s, 16) as u16)
    } else {
        None
    }
}

/// The two segments that four octets fill.
pub open spec fn ip4_segments(o: Seq<u8>) -> Seq<u16> {
    seq![(o[0] * 256 + o[1]) as u16, (o[2] * 256 + o[3]) as u16]
}

/// Groups joined by colons; where `tail` is set the last one may be a dotted
/// IPv4 address, which fills two segments.
pub open spec fn groups_of(s: Seq<char>, tail: bool) -> Option<Seq<u16>>
    decreases s.len(),
{
    let i = find_char(s, ':');
    proof {
        lemma_find_char(s, ':');
    }
    if i < s.len() {
        match (group_of(s.take(i)), groups_of(s.skip(i + 1), tail)) {
            (Some(g), Some(rest)) => Some(seq![g] + rest),
            _ => None,
        }
    } else {
        match (ip4_of(s), group_of(s)) {
            (Some(o), _) => if tail {
                Some(ip4_segments(o))
            } else {
                None
            },
            (None, Some(g)) => Some(seq![g]),
            (None, None) => None,
        }
    }
}

/// The groups on one side of `::`, where there may be none.
pub open spec fn side_of(s: Seq<char>, tail: bool) -> Option<Seq<u16>> {
    if s.len() == 0 {
        Some(Seq::empty())
    } else {
        groups_of(s, tail)
    }
}

/// The segments of an IPv6 address: eight groups, or at most seven around one
/// `::` that stands for the missing ones.
pub open spec fn ip6_of(s: Seq<char>) -> Option<Seq<u16>> {
    let gap = find_gap(s);
    if gap < s.len() {
        match (side_of(s.take(gap), false), side_of(s.skip(gap + 2), true)) {
            (Some(head), Some(tail)) => if head.len() + tail.len() <= 7 {
                Some(head + Seq::new((8 - head.len() - tail.len()) as nat, |i: int| 0u16) + tail)
            } else {
                None
            },
            _ => None,
        }
    } else {
        match groups_of(s, true) {
            Some(g) => if g.len() == 8 {
                Some(g)
            } else {
                None
            },
            None => None,
        }
    }
}

/// An IP address.
pub open spec fn ip_of(s: Seq<char>) -> Option<IpView> {
    match ip4_of(s) {
        Some(o) => Some(IpView::V4(o)),
        None => match ip6_of(s) {
            Some(g) => Some(IpView::V6(g)),
            None => None,
        },
    }
}

/// An IPv4 socket address, `ip:port`.
pub open spec fn addr4_of(s: Seq<char>) -> Option<AddrView> {
    let i = find_char(s, ':');
    if i < s.len() {
        match (ip4_of(s.take(i)), decimal_of(s.skip(i + 1), 0xffff)) {
            (Some(octets), Some(port)) => Some(AddrView::V4 { octets, port: port as u16 }),
            _ => None,
        }
    } else {
        None
    }
}

/// What stands between the brackets of an IPv6 socket address: the address
/// and a scope, zero where none is given.
pub open spec fn scoped_of(s: Seq<char>) -> Option<(Seq<u16>, u32)> {
    let i = find_char(s, '%');
    if i < s.len() {
        match (ip6_of(s.take(i)), decimal_of(s.skip(i + 1), 0xffff_ffff)) {
            (Some(g), Some(scope)) => Some((g, scope as u32)),
            _ => None,
        }
    } else {
        match ip6_of(s) {
            Some(g) => Some((g, 0u32)),
            None => None,
        }
    }
}

/// An IPv6 socket address, `[ip]:port` or `[ip%scope]:port`.
pub open spec fn addr6_of(s: Seq<char>) -> Option<AddrView> {
    let i = find_char(s, ']');
    if s.len() > 0 && s[0] == '[' && i + 1 < s.len() && s[i + 1] == ':' {
        match (scoped_of(s.subrange(1, i)), decimal_of(s.skip(i + 2), 0xffff)) {
            (Some((segments, scope_id)), Some(port)) => Some(
                AddrView::V6 { segments, port: port as u16, flowinfo: 0, scope_id },
            ),
            _ => None,
        }
    } else {
        None
    }
}

/// A socket address.
pub open spec fn sockaddr_of(s: Seq<char>) -> Option<AddrView> {
    match addr4_of(s) {
        Some(a) => Some(a),
        None => addr6_of(s),
    }
}

fn read_octet(s: &[char]) -> (r: Option<u8>)
    ensures
        r == octet_of(s@),
{
    if s.len() < 1 || s.len() > 3 || (s.len() > 1 && s[0] == '0') {
        return None;
    }
    match read_decimal(s, 255) {
        Some(n) => Some(n as u8),
        None => None,
    }
}

fn read_octets(s: &[char], n: u8) -> (r: Option<Vec<u8>>)
    requires
        n >= 1,
    ensures
        r is Some <==> octets_of(s@, n as nat) is Some,
        r matches Some(o) ==> octets_of(s@, n as nat) == Some(o@) && o@.len() == n,
    decreases n,
{
    if n == 1 {
        return match read_octet(s) {
            Some(o) => {
                let v: Vec<u8> = vec![o];
                assert(v@ =~= seq![o]);
                Some(v)
            },
            None => None,
        };
    }
    let i: usize = find_char_at(s, '.');
    proof {
        lemma_find_char(s@, '.');
    }
    if i >= s.len() {
        return None;
    }
    let first = &s[0..i];
    let rest = &s[i + 1..s.len()];
    assert(first@ =~= s@.take(i as int));
    assert(rest@ =~= s@.skip(i + 1));
    match (read_octet(first), read_octets(rest, n - 1)) {
        (Some(o), Some(more)) => {
            let mut v: Vec<u8> = vec![o];
            v.extend_from_slice(&more);
            assert(v@ =~= seq![o] + more@);
            Some(v)
        },
        _ => None,
    }
}

fn read_ip4(s: &[char]) -> (r: Option<[u8; 4]>)
    ensures
        r is Some <==> ip4_of(s@) is Some,
        r matches Some(o) ==> ip4_of(s@) == Some(o@),
{
    match read_octets(s, 4) {
        Some(v) => {
            let r: [u8; 4] = [v[0], v[1], v[2], v[3]];
            assert(r@ =~= v@);
            Some(r)
        },
        None => None,
    }
}

fn read_group(s: &[char]) -> (r: Option<u16>)
    ensures
        r == group_of(s@),
{
    if s.len() < 1 || s.len() > 4 {
        return None;
    }
    let mut n: u32 = 0;
    let mut i: usize = 0;
    while i < s.len()
        invariant
            i <= s@.len() <= 4,
            n == number(s@.take(i as int), 16),
            i == 0 ==> n == 0,
            i == 1 ==> n < 0x10,
            i == 2 ==> n < 0x100,
            i == 3 ==> n < 0x1000,
            i == 4 ==> n < 0x1_0000,
            forall|j: int| 0 <= j < i ==> is_hex_digit(#[trigger] s@[j]),
        decreases s@.len() - i,
    {
        match read_hex_digit(s[i]) {
            Some(v) => {
                n = n * 16 + v as u32;
            },
            None => {
                assert(!is_hex_digit(s@[i as int]));
                return None;
            },
        }
        i = i + 1;
        assert(s@.take(i as int).drop_last() =~= s@.take(i - 1));
    }
    assert(s@.take(i as int) =~= s@);
    Some(n as u16)
}

/// Groups in front of what is still to be read.
spec fn prepend(front: Seq<u16>, rest: Option<Seq<u16>>) -> Option<Seq<u16>> {
    match rest {
        Some(r) => Some(front + r),
        None => None,
    }
}

fn read_groups(s: &[char], tail: bool) -> (r: Option<Vec<u16>>)
    ensures
        r is Some <==> groups_of(s@, tail) is Some,
        r matches Some(g) ==> groups_of(s@, tail) == Some(g@),
{
    let mut out: Vec<u16> = Vec::new();
    let mut pos: usize = 0;
    assert(s@.skip(0) =~= s@);
    loop
        invariant
            pos <= s@.len(),
            groups_of(s@, tail) is Some <==> groups_of(s@.skip(pos as int), tail) is Some,
            groups_of(s@, tail) is Some ==> groups_of(s@, tail) == prepend(
                out@,
                groups_of(s@.skip(pos as int), tail),
            ),
        decreases s@.len() - pos,
    {
        let rest = &s[pos..s.len()];
        assert(rest@ =~= s@.skip(pos as int));
        let i: usize = find_char_at(rest, ':');
        proof {
            lemma_find_char(rest@, ':');
        }
        if i < rest.len() {
            let piece = &rest[0..i];
            assert(piece@ =~= rest@.take(i as int));
            match read_group(piece) {
                Some(g) => {
                    let ghost before = out@;
                    out.push(g);
                    assert(s@.skip(pos + i + 1) =~= rest@.skip(i + 1));
                    proof {
                        let r2 = groups_of(rest@.skip(i + 1), tail);
                        if r2 is Some {
                            assert(before + (seq![g] + r2->0) =~= out@ + r2->0);
                        }
                    }
                    pos = pos + i + 1;
                },
                None => {
                    return None;
                },
            }
        } else {
            match (read_ip4(rest), read_group(rest)) {
                (Some(o), _) => {
                    if tail {
                        let ghost before = out@;
                        out.push(o[0] as u16 * 256 + o[1] as u16);
                        out.push(o[2] as u16 * 256 + o[3] as u16);
                        assert(out@ =~= before + ip4_segments(o@));
                        return Some(out);
                    }
                    return None;
                },
                (None, Some(g)) => {
                    let ghost before = out@;
                    out.push(g);
                    assert(out@ =~= before + seq![g]);
                    return Some(out);
                },
                (None, None) => {
                    return None;
                },
            }
        }
    }
}

fn read_side(s: &[char], tail: bool) -> (r: Option<Vec<u16>>)
    ensures
        r is Some <==> side_of(s@, tail) is Some,
        r matches Some(g) ==> side_of(s@, tail) == Some(g@),
{
    if s.len() == 0 {
        Some(Vec::new())
    } else {
        read_groups(s, tail)
    }
}

fn segments_of(v: &Vec<u16>) -> (r: [u16; 8])
    requires
        v@.len() == 8,
    ensures
        r@ == v@,
{
    let r: [u16; 8] = [v[0], v[1], v[2], v[3], v[4], v[5], v[6], v[7]];
    assert(r@ =~= v@);
    r
}

fn read_ip6(s: &[char]) -> (r: Option<[u16; 8]>)
    ensures
        r is Some <==> ip6_of(s@) is Some,
        r matches Some(g) ==> ip6_of(s@) == Some(g@),
{
    let gap: usize = find_gap_at(s);
    proof {
        lemma_find_gap(s@);
    }
    if gap < s.len() {
        let h = &s[0..gap];
        let t = &s[gap + 2..s.len()];
        assert(h@ =~= s@.take(gap as int));
        assert(t@ =~= s@.skip(gap + 2));
        match (read_side(h, false), read_side(t, true)) {
            (Some(head), Some(tail)) => {
                if head.len() > 7 || tail.len() > 7 - head.len() {
                    return None;
                }
                let missing: usize = 8 - head.len() - tail.len();
                let mut all: Vec<u16> = Vec::new();
                all.extend_from_slice(&head);
                let mut k: usize = 0;
                assert(all@ =~= head@ + Seq::new(0, |i: int| 0u16));
                while k < missing
                    invariant
                        k <= missing,
                        all@ == head@ + Seq::new(k as nat, |i: int| 0u16),
                    decreases missing - k,
                {
                    all.push(0);
                    k = k + 1;
                    assert(all@ =~= head@ + Seq::new(k as nat, |i: int| 0u16));
                }
                let ghost before = all@;
                all.extend_from_slice(&tail);
                assert(all@ =~= before + tail@);
                Some(segments_of(&all))
            },
            _ => None,
        }
    } else {
        match read_groups(s, true) {
            Some(g) => if g.len() == 8 {
                Some(segments_of(&g))
            } else {
                None
            },
            None => None,
        }
    }
}

/// Reads an IP address.
pub fn read_ip(s: &[char]) -> (r: Option<IpAddr>)
    ensures
        r is Some <==> ip_of(s@) is Some,
        r matches Some(a) ==> ip_of(s@) == Some(a@),
{
    match read_ip4(s) {
        Some(o) => Some(IpAddr::V4(o)),
        None => match read_ip6(s) {
            Some(g) => Some(IpAddr::V6(g)),
            None => None,
        },
    }
}

fn read_addr4(s: &[char]) -> (r: Option<SocketAddr>)
    ensures
        r is Some <==> addr4_of(s@) is Some,
        r matches Some(a) ==> addr4_of(s@) == Some(a@),
{
    let i: usize = find_char_at(s, ':');
    proof {
        lemma_find_char(s@, ':');
    }
    if i >= s.len() {
        return None;
    }
    let ip = &s[0..i];
    let port = &s[i + 1..s.len()];
    assert(ip@ =~= s@.take(i as int));
    assert(port@ =~= s@.skip(i + 1));
    match (read_ip4(ip), read_decimal(port, 0xffff)) {
        (Some(octets), Some(port)) => Some(SocketAddr::V4 { octets, port: port as u16 }),
        _ => None,
    }
}

fn read_scoped(s: &[char]) -> (r: Option<([u16; 8], u32)>)
    ensures
        r is Some <==> scoped_of(s@) is Some,
        r matches Some(a) ==> scoped_of(s@) == Some((a.0@, a.1)),
{
    let i: usize = find_char_at(s, '%');
    proof {
        lemma_find_char(s@, '%');
    }
    if i < s.len() {
        let ip = &s[0..i];
        let scope = &s[i + 1..s.len()];
        assert(ip@ =~= s@.take(i as int));
        assert(scope@ =~= s@.skip(i + 1));
        match (read_ip6(ip), read_decimal(scope, 0xffff_ffff)) {
            (Some(g), Some(n)) => Some((g, n as u32)),
            _ => None,
        }
    } else {
        match read_ip6(s) {
            Some(g) => Some((g, 0)),
            None => None,
        }
    }
}

fn read_addr6(s: &[char]) -> (r: Option<SocketAddr>)
    ensures
        r is Some <==> addr6_of(s@) is Some,
        r matches Some(a) ==> addr6_of(s@) == Some(a@),
{
    let i: usize = find_char_at(s, ']');
    proof {
        lemma_find_char(s@, ']');
    }
    if s.len() == 0 || s[0] != '[' || i >= s.len() || s.len() - i <= 1 || s[i + 1] != ':' {
        return None;
    }
    let inner = &s[1..i];
    let port = &s[i + 2..s.len()];
    assert(inner@ =~= s@.subrange(1, i as int));
    assert(port@ =~= s@.skip(i + 2));
    match (read_scoped(inner), read_decimal(port, 0xffff)) {
        (Some((segments, scope_id)), Some(port)) => Some(
            SocketAddr::V6 { segments, port: port as u16, flowinfo: 0, scope_id },
        ),
        _ => None,
    }
}

/// Reads a socket address.
pub fn read_sockaddr(s: &[char]) -> (r: Option<SocketAddr>)
    ensures
        r is Some <==> sockaddr_of(s@) is Some,
        r matches Some(a) ==> sockaddr_of(s@) == Some(a@),
{
    match read_addr4(s) {
        Some(a) => Some(a),
        None => read_addr6(s),
    }
}

// ---------- writing ----------

/// Four octets joined by dots.
pub open spec fn ip4_text(o: Seq<u8>) -> Seq<char> {
    decimal(o[0] as nat) + seq!['.'] + decimal(o[1] as nat) + seq!['.'] + decimal(o[2] as nat)
        + seq!['.'] + decimal(o[3] as nat)
}

/// A number in lower-case hexadecimal.
pub open spec fn hex_number(n: nat) -> Seq<char>
    decreases n,
{
    if n < 16 {
        seq![hex_digit(n as int)]
    } else {
        hex_number(n / 16).push(hex_digit((n % 16) as int))
    }
}

/// Segments joined by colons.
pub open spec fn groups_text(g: Seq<u16>) -> Seq<char>
    decreases g.len(),
{
    if g.len() == 0 {
        Seq::empty()
    } else if g.len() == 1 {
        hex_number(g[0] as nat)
    } else {
        hex_number(g[0] as nat) + seq![':'] + groups_text(g.drop_first())
    }
}

/// How many segments from `i` on are zero.
pub open spec fn zero_run(g: Seq<u16>, i: int) -> int
    decreases g.len() - i,
{
    if 0 <= i < g.len() && g[i] == 0 {
        1 + zero_run(g, i + 1)
    } else {
        0
    }
}

/// Where the longest run of zeros at or after `i` begins, the first of equally
/// long ones.
pub open spec fn longest_zeros(g: Seq<u16>, i: int) -> int
    decreases g.len() - i,
{
    if i + 1 >= g.len() {
        i
    } else {
        let later = longest_zeros(g, i + 1);
        if zero_run(g, i) >= zero_run(g, later) {
            i
        } else {
            later
        }
    }
}

/// Whether an IPv6 address is `::ffff:a.b.c.d`.
pub open spec fn is_v4_mapped(g: Seq<u16>) -> bool {
    &&& g[0] == 0 && g[1] == 0 && g[2] == 0 && g[3] == 0 && g[4] == 0
    &&& g[5] == 0xffff
}

/// The octets of the last two segments.
pub open spec fn mapped_octets(g: Seq<u16>) -> Seq<u8> {
    seq![(g[6] / 256) as u8, (g[6] % 256) as u8, (g[7] / 256) as u8, (g[7] % 256) as u8]
}

/// Eight segments; the longest run of at least two zeros is written `::`.
pub open spec fn ip6_text(g: Seq<u16>) -> Seq<char> {
    if is_v4_mapped(g) {
        "::ffff:"@ + ip4_text(mapped_octets(g))
    } else {
        let z = longest_zeros(g, 0);
        let n = zero_run(g, z);
        if n > 1 {
            groups_text(g.take(z)) + "::"@ + groups_text(g.skip(z + n))
        } else {
            groups_text(g)
        }
    }
}

/// An IP address.
pub open spec fn ip_text(ip: IpView) -> Seq<char> {
    match ip {
        IpView::V4(o) => ip4_text(o),
        IpView::V6(g) => ip6_text(g),
    }
}

/// An IP address and a port, the brackets of IPv6 included.
pub open spec fn ip_port_text(ip: IpView, port: u16) -> Seq<char> {
    match ip {
        IpView::V4(o) => ip4_text(o) + ":"@ + decimal(port as nat),
        IpView::V6(g) => "["@ + ip6_text(g) + "]:"@ + decimal(port as nat),
    }
}

fn push_ip4(s: &mut String, o: &[u8; 4])
    ensures
        final(s)@ == old(s)@ + ip4_text(o@),
{
    push_decimal(s, o[0] as u64);
    s.push('.');
    push_decimal(s, o[1] as u64);
    s.push('.');
    push_decimal(s, o[2] as u64);
    s.push('.');
    push_decimal(s, o[3] as u64);
    assert(s@ =~= old(s)@ + ip4_text(o@));
}

fn push_hex(s: &mut String, n: u16)
    ensures
        final(s)@ == old(s)@ + hex_number(n as nat),
    decreases n,
{
    if n >= 16 {
        push_hex(s, n / 16);
    }
    let d: u8 = (n % 16) as u8;
    s.push(
        if d < 10 {
            (48u8 + d) as char
        } else {
            (87u8 + d) as char
        },
    );
    assert(s@ =~= old(s)@ + hex_number(n as nat));
}

fn push_groups(s: &mut String, g: &[u16])
    ensures
        final(s)@ == old(s)@ + groups_text(g@),
{
    if g.len() == 0 {
        assert(s@ =~= old(s)@ + groups_text(g@));
        return;
    }
    let mut i: usize = 0;
    assert(g@.skip(0) =~= g@);
    while g.len() - i > 1
        invariant
            i < g@.len(),
            old(s)@ + groups_text(g@) == s@ + groups_text(g@.skip(i as int)),
        decreases g@.len() - i,
    {
        let ghost before = s@;
        push_hex(s, g[i]);
        s.push(':');
        proof {
            let rest = g@.skip(i as int);
            assert(rest.drop_first() =~= g@.skip(i + 1));
            assert(before + groups_text(rest) =~= s@ + groups_text(g@.skip(i + 1)));
        }
        i = i + 1;
    }
    push_hex(s, g[i]);
}

fn zero_run_at(g: &[u16; 8], i: usize) -> (n: usize)
    requires
        i <= 8,
    ensures
        n == zero_run(g@, i as int),
        i + n <= 8,
    decreases 8 - i,
{
    if i < 8 && g[i] == 0 {
        1 + zero_run_at(g, i + 1)
    } else {
        0
    }
}

fn longest_zeros_at(g: &[u16; 8]) -> (z: usize)
    ensures
        z == longest_zeros(g@, 0),
        z < 8,
{
    let mut i: usize = 7;
    let mut best: usize = 7;
    while i > 0
        invariant
            i <= best < 8,
            best == longest_zeros(g@, i as int),
        decreases i,
    {
        i = i - 1;
        if zero_run_at(g, i) >= zero_run_at(g, best) {
            best = i;
        }
    }
    best
}

fn push_ip6(s: &mut String, g: &[u16; 8])
    ensures
        final(s)@ == old(s)@ + ip6_text(g@),
{
    match v4_of_mapped(g) {
        Some(o) => {
            s.append("::ffff:");
            push_ip4(s, &o);
            assert(s@ =~= old(s)@ + ip6_text(g@));
        },
        None => {
            let z: usize = longest_zeros_at(g);
            let n: usize = zero_run_at(g, z);
            if n > 1 {
                let head = &g[0..z];
                let tail = &g[z + n..8];
                assert(head@ =~= g@.take(z as int));
                assert(tail@ =~= g@.skip(z + n));
                push_groups(s, head);
                s.append("::");
                push_groups(s, tail);
                assert(s@ =~= old(s)@ + ip6_text(g@));
            } else {
                push_groups(s, g);
            }
        },
    }
}

/// The IPv4 address that an IPv6 address maps, where it does.
pub fn v4_of_mapped(g: &[u16; 8]) -> (r: Option<[u8; 4]>)
    ensures
        r is Some <==> is_v4_mapped(g@),
        r matches Some(o) ==> o@ == mapped_octets(g@),
{
    if g[0] == 0 && g[1] == 0 && g[2] == 0 && g[3] == 0 && g[4] == 0 && g[5] == 0xffff {
        let r: [u8; 4] = [
            (g[6] / 256) as u8,
            (g[6] % 256) as u8,
            (g[7] / 256) as u8,
            (g[7] % 256) as u8,
        ];
        assert(r@ =~= mapped_octets(g@));
        Some(r)
    } else {
        None
    }
}

/// Writes an IP address.
pub fn format_ip(ip: &IpAddr) -> (r: String)
    ensures
        r@ == ip_text(ip@),
{
    let mut s = String::new();
    match ip {
        IpAddr::V4(o) => push_ip4(&mut s, o),
        IpAddr::V6(g) => push_ip6(&mut s, g),
    }
    assert(s@ =~= ip_text(ip@));
    s
}

/// Writes an IP address and a port.
pub fn format_ip_port(ip: &IpAddr, port: u16) -> (r: String)
    ensures
        r@ == ip_port_text(ip@, port),
{
    let mut s = String::new();
    match ip {
        IpAddr::V4(o) => {
            push_ip4(&mut s, o);
            s.append(":");
        },
        IpAddr::V6(g) => {
            s.append("[");
            push_ip6(&mut s, g);
            s.append("]:");
        },
    }
    push_decimal(&mut s, port as u64);
    assert(s@ =~= ip_port_text(ip@, port));
    s
}

} // verus!
