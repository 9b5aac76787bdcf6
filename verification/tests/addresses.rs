use kokonachat::net::announce::{local_announce, local_ipv6, LocalIps};
use kokonachat::net::ip::{IpAddr, SocketAddr};
use kokonachat::net::socket::{
    filter_reachable, fmt_addr, fmt_ip_port, is_public_v4, normalize_recv, parse_sockaddr,
    to_send_addr,
};

fn v6(g: [u16; 8]) -> IpAddr {
    IpAddr::V6(g)
}

fn v4(o: [u8; 4]) -> IpAddr {
    IpAddr::V4(o)
}

fn addr(s: &str) -> SocketAddr {
    parse_sockaddr(s, 1).ok().unwrap()
}

#[test]
fn parse_sockaddr_variants() {
    assert_eq!(parse_sockaddr("1.2.3.4", 1212).unwrap().port(), 1212);
    assert_eq!(parse_sockaddr("1.2.3.4:9999", 1212).unwrap().port(), 9999);
    assert_eq!(parse_sockaddr("2001:db8::1", 1212).unwrap().port(), 1212);
    assert_eq!(parse_sockaddr("[2001:db8::1]:7777", 1212).unwrap().port(), 7777);
    assert_eq!(parse_sockaddr("::1:12222", 1212).unwrap(), addr("[::1]:12222"));
}

#[test]
fn mapped_roundtrip() {
    let v4: SocketAddr = addr("1.2.3.4:1212");
    let mapped = to_send_addr(v4);
    assert!(mapped.is_ipv6());
    assert_eq!(normalize_recv(mapped), v4);
    assert_eq!(fmt_addr(mapped), "[::ffff:1.2.3.4]:1212");
}

#[test]
fn fmt_addr_keeps_port() {
    assert_eq!(fmt_addr(addr("1.2.3.4:9999")), "1.2.3.4:9999");
    assert_eq!(fmt_addr(addr("[2001:db8::1]:7777")), "[2001:db8::1]:7777");
}

#[test]
fn filter_reachable_classifies() {
    assert!(!filter_reachable(v6([0xfe80, 0, 0, 0, 0, 0, 0, 1])));
    assert!(!filter_reachable(v6([0xfc00, 0, 0, 0, 0, 0, 0, 1])));
    assert!(!filter_reachable(v6([0xff00, 0, 0, 0, 0, 0, 0, 1])));
    assert!(!filter_reachable(v4([169, 254, 0, 1])));
    assert!(!filter_reachable(v4([224, 0, 0, 1])));
    assert!(!filter_reachable(v4([0, 0, 0, 0])));
    assert!(!filter_reachable(v6([0, 0, 0, 0, 0, 0, 0, 0])));
    assert!(filter_reachable(v4([127, 0, 0, 1])));
    assert!(filter_reachable(v4([192, 168, 1, 5])));
    assert!(filter_reachable(v4([8, 8, 8, 8])));
    assert!(filter_reachable(v6([0x2001, 0xdb8, 0, 0, 0, 0, 0, 1])));
    assert!(filter_reachable(v6([0, 0, 0, 0, 0, 0, 0, 1])));
}

#[test]
fn whole_prefixes_are_unreachable() {
    assert!(!filter_reachable(v6([0xfebf, 1, 0, 0, 0, 0, 0, 1])));
    assert!(!filter_reachable(v6([0xfdff, 0, 0, 0, 0, 0, 0, 1])));
    assert!(!filter_reachable(v6([0xffff, 0, 0, 0, 0, 0, 0, 1])));
    assert!(!filter_reachable(v4([239, 255, 255, 255])));
    assert!(filter_reachable(v4([240, 0, 0, 1])));
    assert!(filter_reachable(v6([0, 0, 0, 0, 0, 0xffff, 0x0808, 0x0808])));
}

#[test]
fn fmt_ip_port_variants() {
    assert_eq!(fmt_ip_port(v4([1, 2, 3, 4]), 1212), "1.2.3.4:1212");
    assert_eq!(fmt_ip_port(v6([0x240e, 0, 0, 0, 0, 0, 0, 1]), 1212), "[240e::1]:1212");
}

#[test]
fn public_v4_classification() {
    assert!(is_public_v4([8, 8, 8, 8]));
    assert!(is_public_v4([1, 2, 3, 4]));
    assert!(is_public_v4([203, 0, 113, 5]));
    assert!(!is_public_v4([10, 0, 0, 1]));
    assert!(!is_public_v4([172, 16, 0, 1]));
    assert!(!is_public_v4([192, 168, 1, 1]));
    assert!(!is_public_v4([100, 64, 0, 1]));
    assert!(!is_public_v4([169, 254, 0, 1]));
    assert!(!is_public_v4([127, 0, 0, 1]));
    assert!(!is_public_v4([224, 0, 0, 1]));
}

#[test]
fn ipv6_text_forms() {
    let cases: [([u16; 8], &str); 7] = [
        ([0, 0, 0, 0, 0, 0, 0, 0], "[::]:5"),
        ([0, 0, 0, 0, 0, 0, 0, 1], "[::1]:5"),
        ([1, 0, 0, 0, 0, 0, 0, 0], "[1::]:5"),
        ([1, 0, 0, 2, 0, 0, 0, 3], "[1:0:0:2::3]:5"),
        ([1, 0, 2, 0, 3, 0, 4, 0], "[1:0:2:0:3:0:4:0]:5"),
        ([0xffff, 0xabc, 0xd, 0, 1, 2, 3, 4], "[ffff:abc:d:0:1:2:3:4]:5"),
        ([0, 0, 0, 0, 0, 0xffff, 0x7f00, 1], "[::ffff:127.0.0.1]:5"),
    ];
    for (g, want) in cases {
        assert_eq!(fmt_ip_port(v6(g), 5), want);
        let a = parse_sockaddr(want, 1).unwrap();
        assert_eq!(a.ip(), v6(g));
        assert_eq!(a.port(), 5);
    }
}

#[test]
fn texts_that_are_no_addresses() {
    for s in ["", "not-an-ip", "1.2.3", "1.2.3.4.5", "256.1.1.1", "01.2.3.4", "1.2.3.4:99999", "::g", "1::2::3"] {
        let e = parse_sockaddr(s, 1212).err().unwrap();
        assert_eq!(e.message(), format!("无法解析 IP 地址: {s}"));
    }
    assert_eq!(addr(" 1.2.3.4 ").ip(), v4([1, 2, 3, 4]));
}

#[test]
fn announcements() {
    let local = LocalIps {
        ip: Some(v4([192, 168, 1, 5])),
        ipv6: Some(v6([0x240e, 0, 0, 0, 0, 0, 0, 1])),
    };
    assert_eq!(local_announce(None, 1212, local), vec!["192.168.1.5:1212", "[240e::1]:1212"]);
    assert_eq!(local_announce(Some("8.8.8.8"), 1212, local), vec!["8.8.8.8:1212"]);
    let hidden = LocalIps { ip: None, ipv6: Some(v6([0xfe80, 0, 0, 0, 0, 0, 0, 1])) };
    assert!(local_announce(None, 1212, hidden).is_empty());
    assert_eq!(local_ipv6(hidden.ipv6), None);
    assert_eq!(local_ipv6(local.ipv6), Some("240e::1".to_string()));
}
