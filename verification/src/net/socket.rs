//! Addresses as the dual-stack UDP socket uses them: mapping between IPv4 and
//! IPv6, reachability, and the text forms that are stored and announced.

use vstd::prelude::*;

use crate::net::ip::{
    addr_of, format_ip_port, ip_of, ip_port_text, is_v4_mapped, mapped_octets, read_ip,
    read_sockaddr, sockaddr_of, v4_of_mapped, AddrView, IpAddr, IpView, SocketAddr,
};
use crate::net::ip_laws::law_ip_port_round_trip;
use crate::scan::{decimal_of, find_last, find_last_at, lemma_find_last, read_decimal};
use crate::text::{chars_of, decimal, lemma_trimmed_id, push_decimal, trimmed};

verus! {

/// The IPv6 form `::ffff:a.b.c.d` of four octets.
pub open spec fn mapped_segments(o: Seq<u8>) -> Seq<u16> {
    seq![0u16, 0, 0, 0, 0, 0xffff, (o[0] * 256 + o[1]) as u16, (o[2] * 256 + o[3]) as u16]
}

/// The address to send to from an IPv6 dual-stack socket.
pub open spec fn send_form(addr: AddrView) -> AddrView {
    match addr {
        AddrView::V4 { octets, port } => AddrView::V6 {
            segments: mapped_segments(octets),
            port,
            flowinfo: 0,
            scope_id: 0,
        },
        AddrView::V6 { .. } => addr,
    }
}

/// An IPv6 dual-stack socket cannot send to an IPv4 address; it takes the
/// mapped form instead.
pub fn to_send_addr(addr: SocketAddr) -> (r: SocketAddr)
    ensures
        r@ == send_form(addr@),
{
    match addr {
        SocketAddr::V4 { octets, port } => {
            let segments: [u16; 8] = [
                0,
                0,
                0,
                0,
                0,
                0xffff,
                octets[0] as u16 * 256 + octets[1] as u16,
                octets[2] as u16 * 256 + octets[3] as u16,
            ];
            assert(segments@ =~= mapped_segments(octets@));
            SocketAddr::V6 { segments, port, flowinfo: 0, scope_id: 0 }
        },
        SocketAddr::V6 { .. } => addr,
    }
}

/// The address that a datagram from `addr` is taken to come from.
pub open spec fn recv_form(addr: AddrView) -> AddrView {
    match addr {
        AddrView::V6 { segments, port, .. } => if is_v4_mapped(segments) {
            AddrView::V4 { octets: mapped_octets(segments), port }
        } else {
            addr
        },
        AddrView::V4 { .. } => addr,
    }
}

/// Turns a mapped IPv6 source address back into the IPv4 address.
pub fn normalize_recv(addr: SocketAddr) -> (r: SocketAddr)
    ensures
        r@ == recv_form(addr@),
{
    match addr {
        SocketAddr::V6 { segments, port, .. } => match v4_of_mapped(&segments) {
            Some(octets) => SocketAddr::V4 { octets, port },
            None => addr,
        },
        SocketAddr::V4 { .. } => addr,
    }
}

/// An IPv4 address that was mapped for sending comes back unchanged.
pub proof fn law_mapped_round_trip(octets: Seq<u8>, port: u16)
    requires
        octets.len() == 4,
    ensures
        send_form(AddrView::V4 { octets, port }) is V6,
        recv_form(send_form(AddrView::V4 { octets, port })) == (AddrView::V4 { octets, port }),
{
    assert(mapped_octets(mapped_segments(octets)) =~= octets);
}

/// Writes an address as `ip:port` or `[v6]:port`. The port tells users behind
/// one IP address apart and is always kept.
pub fn fmt_addr(addr: SocketAddr) -> (r: String)
    ensures
        r@ == ip_port_text(addr@.ip(), addr@.port()),
{
    format_ip_port(&addr.ip(), addr.port())
}

/// Whether an address is worth storing and announcing.
pub open spec fn reachable(ip: IpView) -> bool {
    match ip {
        IpView::V4(o) => {
            &&& !(o[0] == 0 && o[1] == 0 && o[2] == 0 && o[3] == 0)
            &&& !(224 <= o[0] <= 239)
            &&& !(o[0] == 169 && o[1] == 254)
        },
        IpView::V6(g) => {
            // ff00::/8 multicast, fe80::/10 link-local, fc00::/7 unique local
            &&& !(0xff00 <= g[0])
            &&& !(0xfe80 <= g[0] <= 0xfebf)
            &&& !(0xfc00 <= g[0] <= 0xfdff)
            // Of the addresses that begin with 0x0000, loopback and mapped ones
            &&& (g[0] == 0 ==> is_loopback6(g) || is_v4_mapped(g))
        },
    }
}

/// `::1`
pub open spec fn is_loopback6(g: Seq<u16>) -> bool {
    &&& g[0] == 0 && g[1] == 0 && g[2] == 0 && g[3] == 0
    &&& g[4] == 0 && g[5] == 0 && g[6] == 0 && g[7] == 1
}

/// Whether an address is worth storing and announcing: not unspecified,
/// multicast, link-local or unique local. Loopback is kept for several
/// instances on one machine, private IPv4 for local networks.
pub fn filter_reachable(ip: IpAddr) -> (r: bool)
    ensures
        r == reachable(ip@),
{
    match ip {
        IpAddr::V4(o) => {
            !(o[0] == 0 && o[1] == 0 && o[2] == 0 && o[3] == 0) && !(224 <= o[0] && o[0] <= 239)
                && !(o[0] == 169 && o[1] == 254)
        },
        IpAddr::V6(g) => {
            let loopback = g[0] == 0 && g[1] == 0 && g[2] == 0 && g[3] == 0 && g[4] == 0 && g[5]
                == 0 && g[6] == 0 && g[7] == 1;
            let mapped = match v4_of_mapped(&g) {
                Some(_) => true,
                None => false,
            };
            g[0] < 0xff00 && !(0xfe80 <= g[0] && g[0] <= 0xfebf) && !(0xfc00 <= g[0] && g[0]
                <= 0xfdff) && (g[0] != 0 || loopback || mapped)
        },
    }
}

/// Whether an IPv4 address is public.
pub open spec fn public_v4(o: Seq<u8>) -> bool {
    // loopback, multicast, unspecified, link-local
    &&& o[0] != 127
    &&& !(224 <= o[0] <= 239)
    &&& !(o[0] == 0 && o[1] == 0 && o[2] == 0 && o[3] == 0)
    &&& !(o[0] == 169 && o[1] == 254)
    // private: 10/8, 172.16/12, 192.168/16
    &&& o[0] != 10
    &&& !(o[0] == 172 && 16 <= o[1] <= 31)
    &&& !(o[0] == 192 && o[1] == 168)
    // carrier-grade NAT: 100.64/10
    &&& !(o[0] == 100 && 64 <= o[1] <= 127)
}

/// Whether an IPv4 address is public: not loopback, multicast, unspecified,
/// link-local, private or carrier-grade NAT.
pub fn is_public_v4(o: [u8; 4]) -> (r: bool)
    ensures
        r == public_v4(o@),
{
    o[0] != 127 && !(224 <= o[0] && o[0] <= 239) && !(o[0] == 0 && o[1] == 0 && o[2] == 0 && o[3]
        == 0) && !(o[0] == 169 && o[1] == 254) && o[0] != 10 && !(o[0] == 172 && 16 <= o[1] && o[1]
        <= 31) && !(o[0] == 192 && o[1] == 168) && !(o[0] == 100 && 64 <= o[1] && o[1] <= 127)
}

/// Writes an address and the listening port as announced to friends.
pub fn fmt_ip_port(ip: IpAddr, port: u16) -> (r: String)
    ensures
        r@ == ip_port_text(ip@, port),
{
    format_ip_port(&ip, port)
}

/// A port number as an integer: digits, with a plus sign before them or not.
pub open spec fn port_of(s: Seq<char>) -> Option<nat> {
    if s.len() > 0 && s[0] == '+' {
        decimal_of(s.skip(1), 0xffff)
    } else {
        decimal_of(s, 0xffff)
    }
}

/// An address and a port with a colon between them and no brackets.
pub open spec fn bare_addr_of(s: Seq<char>) -> Option<AddrView> {
    let i = find_last(s, ':');
    if i >= 0 {
        match (port_of(s.skip(i + 1)), ip_of(s.take(i))) {
            (Some(port), Some(ip)) => Some(addr_of(ip, port as u16)),
            _ => None,
        }
    } else {
        None
    }
}

/// What [`parse_sockaddr`] makes of a text.
#[verifier::opaque]
pub open spec fn parsed_addr(s: Seq<char>, default_port: u16) -> Option<AddrView> {
    let t = trimmed(s);
    match (sockaddr_of(t), ip_of(t), bare_addr_of(t)) {
        (Some(a), _, _) => Some(a),
        (None, Some(ip), _) => Some(addr_of(ip, default_port)),
        (None, None, Some(a)) => Some(a),
        (None, None, None) => sockaddr_of("["@ + t + "]:"@ + decimal(default_port as nat)),
    }
}

/// A text that is no address.
#[derive(Debug)]
pub struct AddrError {
    pub input: String,
}

impl AddrError {
    pub fn message(&self) -> (r: String)
        ensures
            r@ == "无法解析 IP 地址: "@ + self.input@,
    {
        let mut s = "无法解析 IP 地址: ".to_owned();
        s.append(&self.input);
        s
    }
}

/// Reads a port number.
pub fn read_port(s: &[char]) -> (r: Option<u16>)
    ensures
        r is Some <==> port_of(s@) is Some,
        r matches Some(n) ==> port_of(s@) == Some(n as nat),
{
    let n = if s.len() > 0 && s[0] == '+' {
        let rest = &s[1..s.len()];
        assert(rest@ =~= s@.skip(1));
        read_decimal(rest, 0xffff)
    } else {
        read_decimal(s, 0xffff)
    };
    match n {
        Some(n) => Some(n as u16),
        None => None,
    }
}

fn read_bare_addr(s: &[char]) -> (r: Option<SocketAddr>)
    ensures
        r is Some <==> bare_addr_of(s@) is Some,
        r matches Some(a) ==> bare_addr_of(s@) == Some(a@),
{
    proof {
        lemma_find_last(s@, ':');
    }
    match find_last_at(s, ':') {
        Some(i) => {
            assert(i < s.len());
            let head = &s[0..i];
            let tail = &s[i + 1..s.len()];
            assert(head@ =~= s@.take(i as int));
            assert(tail@ =~= s@.skip(i + 1));
            match (read_port(tail), read_ip(head)) {
                (Some(port), Some(ip)) => Some(SocketAddr::new(ip, port)),
                _ => None,
            }
        },
        None => None,
    }
}

/// Reads `ip`, `ip:port`, `[v6]:port` or `v6:port`; an address without a port
/// gets the default one.
pub fn parse_sockaddr(s: &str, default_port: u16) -> (r: Result<SocketAddr, AddrError>)
    ensures
        r is Ok <==> parsed_addr(s@, default_port) is Some,
        r matches Ok(a) ==> parsed_addr(s@, default_port) == Some(a@),
        r matches Err(e) ==> e.input@ == s@,
{
    reveal(parsed_addr);
    let text = s.trim();
    let t = chars_of(text);
    if let Some(a) = read_sockaddr(&t) {
        return Ok(a);
    }
    if let Some(ip) = read_ip(&t) {
        return Ok(SocketAddr::new(ip, default_port));
    }
    if let Some(a) = read_bare_addr(&t) {
        return Ok(a);
    }
    let mut bracketed = "[".to_owned();
    bracketed.append(text);
    bracketed.append("]:");
    push_decimal(&mut bracketed, default_port as u64);
    if let Some(a) = read_sockaddr(&chars_of(&bracketed)) {
        return Ok(a);
    }
    Err(AddrError { input: s.to_owned() })
}

/// Reading a written address gives back the IP address and the port, whatever
/// the default port.
pub proof fn law_fmt_addr_round_trip(ip: IpView, port: u16, default_port: u16)
    requires
        match ip {
            IpView::V4(o) => o.len() == 4,
            IpView::V6(g) => g.len() == 8,
        },
    ensures
        parsed_addr(ip_port_text(ip, port), default_port) == Some(addr_of(ip, port)),
{
    reveal(parsed_addr);
    law_ip_port_round_trip(ip, port);
    lemma_trimmed_id(ip_port_text(ip, port));
}

} // verus!
