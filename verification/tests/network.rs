use kokonachat::crypto::cipher::ed_pub_to_x25519;
use kokonachat::crypto::keys::Identity;
use kokonachat::net::announce::LocalIps;
use kokonachat::net::event::{Moment, NetCommand, NetEvent, Output};
use kokonachat::net::ip::{IpAddr, SocketAddr};
use kokonachat::net::node::{NetError, Network};
use kokonachat::net::packet::{Packet, PktType};
use kokonachat::proto::addressing::encode_addr_answer;
use kokonachat::proto::{encode_attach_chunk, AttachChunk};
use kokonachat::store::friends::FriendStore;

const NO_IPS: LocalIps = LocalIps { ip: None, ipv6: None };

struct Node {
    net: Network,
    friends: FriendStore,
    port: u16,
    id: [u8; 32],
    events: Vec<NetEvent>,
}

fn node(seed: u8, port: u16) -> Node {
    let identity = Identity::from_seed([seed; 32]);
    let id = identity.ed_pub;
    Node {
        net: Network::new(identity, false, port, None, None, u64::MAX),
        friends: FriendStore::new(),
        port,
        id,
        events: Vec::new(),
    }
}

fn at(t: u64) -> Moment {
    Moment { tick: t, unix: 1_000_000 + t }
}

fn local(port: u16) -> SocketAddr {
    SocketAddr::V4 { octets: [127, 0, 0, 1], port }
}

/// Keeps the events of a node, gives back its datagrams with the port that
/// they go to.
fn sort(n: &mut Node, out: Vec<Output>) -> Vec<(u16, u16, Vec<u8>)> {
    let mut mail = Vec::new();
    for o in out {
        match o {
            Output::Send { to, bytes } => mail.push((n.port, to.port(), bytes)),
            Output::Event(e) => n.events.push(e),
        }
    }
    mail
}

/// Delivers datagrams until none is left.
fn deliver(nodes: &mut Vec<Node>, mail: Vec<(u16, u16, Vec<u8>)>, now: Moment) {
    let mut queue = mail;
    let mut rounds = 0;
    while !queue.is_empty() {
        rounds += 1;
        assert!(rounds < 1000, "no end of datagrams");
        let mut next = Vec::new();
        for (from, to, bytes) in queue {
            for n in nodes.iter_mut() {
                if n.port == to {
                    let mut out = Vec::new();
                    let _ = n.net.handle_datagram(&mut n.friends, &bytes, local(from), now, &mut out);
                    next.extend(sort(n, out));
                }
            }
        }
        queue = next;
    }
}

fn command(n: &mut Node, cmd: NetCommand, now: Moment) -> Vec<(u16, u16, Vec<u8>)> {
    let mut out = Vec::new();
    assert!(!n.net.handle_command(&n.friends, cmd, now, &mut out));
    sort(n, out)
}

fn befriend(a: &mut Node, b: &Node, name: &str) {
    let ip = format!("127.0.0.1:{}", b.port);
    a.friends.add(name.to_string(), b.id, Some(ip)).unwrap();
}

fn pair() -> Vec<Node> {
    let mut a = node(1, 12142);
    let mut b = node(2, 12143);
    befriend(&mut a, &b, "bob");
    befriend(&mut b, &a, "alice");
    vec![a, b]
}

fn texts_in(n: &Node) -> Vec<String> {
    let mut v = Vec::new();
    for e in &n.events {
        if let NetEvent::MessageReceived { content, .. } = e {
            v.push(content.clone());
        }
    }
    v
}

fn statuses_in(n: &Node) -> Vec<String> {
    let mut v = Vec::new();
    for e in &n.events {
        if let NetEvent::Status(s) = e {
            v.push(s.clone());
        }
    }
    v
}

#[test]
fn end_to_end_two_nodes() {
    let mut nodes = pair();
    let (port_a, a_pub, b_pub) = (nodes[0].port, nodes[0].id, nodes[1].id);
    let cmd = NetCommand::Send { recipient: b_pub, content: "hello kokona".into(), seq: 7 };
    let mail = command(&mut nodes[0], cmd, at(0));
    assert_eq!(mail.len(), 1);
    deliver(&mut nodes, mail, at(10));

    assert_eq!(texts_in(&nodes[1]), vec!["hello kokona".to_string()], "B 未收到消息");
    let acked = nodes[0].events.iter().any(|e| matches!(e, NetEvent::MessageAcked { to, seq: 7 } if *to == b_pub));
    assert!(acked, "A 未收到 ACK");
    assert!(nodes[0].net.retx.is_empty());

    let b_view = nodes[1].friends.get(&a_pub).unwrap();
    assert!(b_view.last_seen.is_some());
    assert!(
        b_view.ips.iter().any(|x| x == &format!("127.0.0.1:{port_a}")),
        "B 应记录 A 的带端口来源地址，实际: {:?}",
        b_view.ips
    );
}

#[test]
fn repeated_messages_show_once() {
    let mut nodes = pair();
    let b_pub = nodes[1].id;
    let mail = command(
        &mut nodes[0],
        NetCommand::Send { recipient: b_pub, content: "once".into(), seq: 1 },
        at(0),
    );
    deliver(&mut nodes, mail.clone(), at(1));
    nodes[0].events.clear();
    deliver(&mut nodes, mail, at(2));
    assert_eq!(texts_in(&nodes[1]), vec!["once".to_string()]);
}

#[test]
fn unanswered_messages_fail_and_go_out_later() {
    let mut nodes = pair();
    let b_pub = nodes[1].id;
    let mail = command(
        &mut nodes[0],
        NetCommand::Send { recipient: b_pub, content: "late".into(), seq: 3 },
        at(0),
    );
    assert_eq!(mail.len(), 1);
    let mut sent = 0;
    for t in 1..=4u64 {
        let n = &mut nodes[0];
        let mut out = Vec::new();
        n.net.tick(&n.friends, 2000 * t, NO_IPS, &mut out);
        sent += sort(n, out).len();
    }
    assert_eq!(sent, 3);
    assert!(nodes[0].events.iter().any(|e| matches!(e, NetEvent::MessageFailed { seq: 3, .. })));
    assert!(nodes[0].net.retx.is_empty());

    // B shows itself, and the message goes out again.
    let n = &mut nodes[1];
    let mut out = Vec::new();
    n.net.startup_ping(&n.friends, &mut out);
    let mail = sort(n, out);
    deliver(&mut nodes, mail, at(20_000));
    assert_eq!(texts_in(&nodes[1]), vec!["late".to_string()]);
    assert!(nodes[0].events.iter().any(|e| matches!(e, NetEvent::MessageAcked { seq: 3, .. })));
}

#[test]
fn messages_that_cannot_be_sent() {
    let mut nodes = pair();
    let b_pub = nodes[1].id;
    let long = "x".repeat(3001);
    let mut out = Vec::new();
    let n = &mut nodes[0];
    assert_eq!(
        n.net.handle_send(&n.friends, b_pub, &long, 1, at(0), &mut out),
        Err(NetError::MessageTooLong)
    );
    assert_eq!(
        n.net.handle_send(&n.friends, Identity::from_seed([9; 32]).ed_pub, "x", 1, at(0), &mut out),
        Err(NetError::NotFriend)
    );
    assert!(out.is_empty());
    let longest = "x".repeat(3000);
    assert_eq!(n.net.handle_send(&n.friends, b_pub, &longest, 1, at(0), &mut out), Ok(()));
    assert_eq!(out.len(), 1);
}

#[test]
fn strangers_are_not_heard() {
    let mut nodes = pair();
    let mut eve = node(3, 12150);
    befriend(&mut eve, &nodes[1], "bob");
    let b_pub = nodes[1].id;
    let mail = command(
        &mut eve,
        NetCommand::Send { recipient: b_pub, content: "hi".into(), seq: 0 },
        at(0),
    );
    let (_, _, bytes) = &mail[0];
    let b = &mut nodes[1];
    let mut out = Vec::new();
    assert_eq!(
        b.net.handle_datagram(&mut b.friends, bytes, local(12150), at(1), &mut out),
        Err(NetError::UnknownSender)
    );
    assert!(out.is_empty());
    let a = &mut nodes[0];
    assert_eq!(
        a.net.handle_datagram(&mut a.friends, bytes, local(12150), at(1), &mut out),
        Err(NetError::NotForUs)
    );
    assert!(a.net.handle_datagram(&mut a.friends, b"noise", local(1), at(1), &mut out).is_err());
    assert!(out.is_empty());
}

#[test]
fn attachments_come_out_whole() {
    let mut nodes = pair();
    let b_pub = nodes[1].id;
    let data: Vec<u8> = (0..10_000u32).map(|i| (i % 251) as u8).collect();
    let cmd = NetCommand::SendAttach {
        recipient: b_pub,
        kind: 1,
        name: "bild.png".into(),
        data: data.clone(),
        ts: 5,
        transfer: [8; 16],
    };
    let mut mail = command(&mut nodes[0], cmd, at(0));
    assert_eq!(mail.len(), 5);
    mail.reverse();
    deliver(&mut nodes, mail, at(1));
    let mut got = Vec::new();
    for e in &nodes[1].events {
        if let NetEvent::AttachReceived { kind, name, data, ts, .. } = e {
            got.push((*kind, name.clone(), data.clone(), *ts));
        }
    }
    assert_eq!(got, vec![(1, "bild.png".to_string(), data, 5)]);
    assert!(nodes[0]
        .events
        .iter()
        .any(|e| matches!(e, NetEvent::AttachAcked { transfer, .. } if *transfer == [8; 16])));
    assert!(nodes[0].net.retx.is_empty());
}

#[test]
fn a_lost_chunk_ends_the_transfer() {
    let mut nodes = pair();
    let b_pub = nodes[1].id;
    let cmd = NetCommand::SendAttach {
        recipient: b_pub,
        kind: 3,
        name: "f".into(),
        data: vec![1; 5000],
        ts: 5,
        transfer: [9; 16],
    };
    let mut mail = command(&mut nodes[0], cmd, at(0));
    mail.pop();
    deliver(&mut nodes, mail, at(1));
    for t in 1..=4u64 {
        let n = &mut nodes[0];
        let mut out = Vec::new();
        n.net.tick(&n.friends, 2000 * t, NO_IPS, &mut out);
        sort(n, out);
    }
    let failed = nodes[0].events.iter().filter(|e| matches!(e, NetEvent::AttachFailed { .. })).count();
    assert_eq!(failed, 1);
    assert!(nodes[0].net.retx.is_empty());
    let n = &mut nodes[1];
    n.net.prune_attach_recvs(1 + 120_000);
    assert_eq!(n.net.attach_recvs.len(), 0);
}

#[test]
fn huge_attachments_are_not_taken_in() {
    let mut nodes = pair();
    let (a_pub, b_seed) = (nodes[0].id, [2u8; 32]);
    let b = Identity::from_seed(b_seed);
    let a_x = ed_pub_to_x25519(&a_pub).unwrap();
    let chunk = AttachChunk {
        transfer: [1; 16],
        kind: 3,
        index: 0,
        total: 1,
        total_size: 0x1000_0001,
        name: "big".to_string(),
        data: vec![0; 10],
    };
    let inner = encode_attach_chunk(&chunk, 1);
    let bytes = nodes[1]
        .net
        .seal_packet(PktType::Msg, 1, 5, &a_pub, &a_x, &inner)
        .ok()
        .unwrap();
    let p = Packet::decode(&bytes).ok().unwrap();
    assert_eq!(p.packet.sender_id, b.ed_pub);
    deliver(&mut nodes, vec![(12143, 12142, bytes)], at(0));
    assert!(!nodes[0].events.iter().any(|e| matches!(e, NetEvent::AttachReceived { .. })));
    assert_eq!(nodes[0].net.attach_recvs.len(), 0);
}

/// Three nodes: A and C know B; C moved, and A asks B for C's address.
#[test]
fn addresses_are_asked_of_common_friends() {
    let mut a = node(1, 12142);
    let mut b = node(2, 12143);
    let c = node(3, 12160);
    befriend(&mut a, &b, "bob");
    a.friends.add("carol".to_string(), c.id, None).unwrap();
    befriend(&mut b, &a, "alice");
    befriend(&mut b, &c, "carol");
    let c_pub = c.id;
    let mut nodes = vec![a, b, c];
    let a_pub = nodes[0].id;
    nodes[2].friends.add("alice".to_string(), a_pub, None).unwrap();

    let mail = command(
        &mut nodes[0],
        NetCommand::Send { recipient: c_pub, content: "where are you".into(), seq: 1 },
        at(0),
    );
    assert!(mail.is_empty());
    assert!(nodes[0].events.iter().any(|e| matches!(e, NetEvent::MessageFailed { seq: 1, .. })));

    let mail = command(&mut nodes[0], NetCommand::FindAddress { recipient: c_pub }, at(1));
    assert!(!mail.is_empty());
    deliver(&mut nodes, mail, at(2));
    assert_eq!(nodes[0].friends.get(&c_pub).unwrap().ips, vec!["127.0.0.1:12160"]);
    assert!(nodes[0]
        .events
        .iter()
        .any(|e| matches!(e, NetEvent::AddrResult { found: true, .. })));
    assert_eq!(texts_in(&nodes[2]), vec!["where are you".to_string()]);
}

#[test]
fn addresses_of_strangers_are_not_told() {
    let mut a = node(1, 12142);
    let mut b = node(2, 12143);
    let c = node(3, 12160);
    befriend(&mut a, &b, "bob");
    a.friends.add("carol".to_string(), c.id, None).unwrap();
    befriend(&mut b, &a, "alice");
    let c_pub = c.id;
    let mut nodes = vec![a, b];
    let mail = command(&mut nodes[0], NetCommand::FindAddress { recipient: c_pub }, at(1));
    deliver(&mut nodes, mail, at(2));
    assert!(nodes[0].friends.get(&c_pub).unwrap().ips.is_empty());
    for t in 1..=30u64 {
        let n = &mut nodes[0];
        let mut out = Vec::new();
        n.net.tick(&n.friends, 1000 * t, NO_IPS, &mut out);
        sort(n, out);
    }
    assert!(nodes[0]
        .events
        .iter()
        .any(|e| matches!(e, NetEvent::AddrResult { found: false, .. })));
}

#[test]
fn new_addresses_are_announced_and_confirmed() {
    let mut nodes = pair();
    let a_pub = nodes[0].id;
    let ips = LocalIps { ip: Some(IpAddr::V4([127, 0, 0, 1])), ipv6: None };
    let n = &mut nodes[0];
    let mut out = Vec::new();
    n.net.announce_ips(&n.friends, ips, 0, &mut out);
    let mail = sort(n, out);
    assert_eq!(mail.len(), 1);
    assert_eq!(nodes[0].net.ip_probes.len(), 1);
    deliver(&mut nodes, mail, at(1));
    assert_eq!(nodes[0].net.ip_probes.len(), 0);
    assert!(nodes[1]
        .friends
        .get(&a_pub)
        .unwrap()
        .ips
        .contains(&"127.0.0.1:12142".to_string()));
}

#[test]
fn common_friends_hand_on_an_address() {
    // A announces a new address; C is away, so B is asked to hand it on.
    let mut a = node(1, 12142);
    let mut b = node(2, 12143);
    let mut c = node(3, 12160);
    befriend(&mut a, &b, "bob");
    a.friends.add("carol".to_string(), c.id, Some("127.0.0.1:1".into())).unwrap();
    befriend(&mut b, &a, "alice");
    befriend(&mut b, &c, "carol");
    c.friends.add("alice".to_string(), a.id, None).unwrap();
    befriend(&mut c, &b, "bob");
    let a_pub = a.id;
    let mut nodes = vec![a, b, c];
    let ips = LocalIps { ip: Some(IpAddr::V4([127, 0, 0, 1])), ipv6: None };
    let n = &mut nodes[0];
    let mut out = Vec::new();
    n.net.announce_ips(&n.friends, ips, 0, &mut out);
    let mail = sort(n, out);
    deliver(&mut nodes, mail, at(1));
    for t in 1..=6u64 {
        let n = &mut nodes[0];
        let mut out = Vec::new();
        n.net.tick(&n.friends, 10_000 * t, ips, &mut out);
        let mail = sort(n, out);
        deliver(&mut nodes, mail, at(10_000 * t + 1));
    }
    let heard = statuses_in(&nodes[1]);
    assert_eq!(heard.len(), 2);
    assert!(heard[0].ends_with("通知了新 IP，已确认"));
    assert!(heard[1].ends_with("委托我代转新 IP（1 人待转）"));
    // C comes online and is told by B.
    let n = &mut nodes[2];
    let mut out = Vec::new();
    n.net.startup_ping(&n.friends, &mut out);
    let mail = sort(n, out);
    deliver(&mut nodes, mail, at(100_000));
    assert!(nodes[2]
        .friends
        .get(&a_pub)
        .unwrap()
        .ips
        .contains(&"127.0.0.1:12142".to_string()));
}

#[test]
fn local_addresses_are_looked_at_when_due() {
    let ips = LocalIps { ip: Some(IpAddr::V4([127, 0, 0, 1])), ipv6: None };
    let b = node(2, 12143);
    let me = || Identity::from_seed([1; 32]);
    let mut net = Network::new(me(), false, 12142, None, None, 5000);
    let mut friends = FriendStore::new();
    friends.add("bob".into(), b.id, Some("127.0.0.1:12143".into())).unwrap();
    assert!(!net.wants_local_ips(4999));
    assert!(net.wants_local_ips(5000));
    let mut out = Vec::new();
    net.announce_ips(&friends, ips, 0, &mut out);
    assert!(net.wants_local_ips(0));
    let stable = Network::new(me(), false, 12142, Some("8.8.8.8".into()), None, 5000);
    assert!(!stable.wants_local_ips(5000));
}

#[test]
fn sleeping_until_something_is_due() {
    let mut nodes = pair();
    let b_pub = nodes[1].id;
    assert!(nodes[0].net.next_wakeup(0) > 1_000_000);
    let _ = command(
        &mut nodes[0],
        NetCommand::Send { recipient: b_pub, content: "x".into(), seq: 0 },
        at(500),
    );
    assert_eq!(nodes[0].net.next_wakeup(500), 2000);
    assert_eq!(nodes[0].net.next_wakeup(1500), 1000);
    let n = &mut nodes[0];
    let mut out = Vec::new();
    assert!(n.net.handle_command(&n.friends, NetCommand::Quit, at(0), &mut out));
    assert!(out.is_empty());
}

#[test]
fn dual_stack_sockets_get_mapped_addresses() {
    let identity = Identity::from_seed([1; 32]);
    let b = Identity::from_seed([2; 32]);
    let mut net = Network::new(identity, true, 1212, None, None, u64::MAX);
    let mut friends = FriendStore::new();
    friends.add("b".into(), b.ed_pub, Some("1.2.3.4:5".into())).unwrap();
    let mut out = Vec::new();
    net.handle_command(
        &friends,
        NetCommand::Send { recipient: b.ed_pub, content: "x".into(), seq: 0 },
        at(0),
        &mut out,
    );
    match &out[0] {
        Output::Send { to, .. } => {
            assert!(to.is_ipv6());
            assert_eq!(to.port(), 5);
        }
        _ => panic!("a datagram expected"),
    }
}

#[test]
fn many_lost_chunks_are_reported_once() {
    let mut nodes = pair();
    let b_pub = nodes[1].id;
    for (transfer, size) in [([9u8; 16], 10_000usize), ([8u8; 16], 5_000)] {
        let cmd = NetCommand::SendAttach {
            recipient: b_pub,
            kind: 3,
            name: "f".into(),
            data: vec![1; size],
            ts: 5,
            transfer,
        };
        let _ = command(&mut nodes[0], cmd, at(0));
    }
    let text = NetCommand::Send { recipient: b_pub, content: "x".into(), seq: 7 };
    let _ = command(&mut nodes[0], text, at(0));
    for t in 1..=4u64 {
        let n = &mut nodes[0];
        let mut out = Vec::new();
        n.net.tick(&n.friends, 2000 * t, NO_IPS, &mut out);
        sort(n, out);
    }
    let ended: Vec<[u8; 16]> = nodes[0]
        .events
        .iter()
        .filter_map(|e| match e {
            NetEvent::AttachFailed { transfer, .. } => Some(*transfer),
            _ => None,
        })
        .collect();
    assert_eq!(ended, vec![[9u8; 16], [8u8; 16]]);
    let lost: Vec<u32> = nodes[0]
        .events
        .iter()
        .filter_map(|e| match e {
            NetEvent::MessageFailed { seq, .. } => Some(*seq),
            _ => None,
        })
        .collect();
    assert_eq!(lost, vec![7]);
    let n = &nodes[0].net;
    assert_eq!(n.failed_sends.len(), 1);
    assert!(n.retx.is_empty());
    assert_eq!((n.chunk_seqs.len(), n.attach_sends.len()), (0, 0));
}

#[test]
fn answers_about_someone_else_change_nothing() {
    let mut a = node(1, 12142);
    let mut b = node(2, 12143);
    let c = node(3, 12160);
    befriend(&mut a, &b, "bob");
    a.friends.add("carol".to_string(), c.id, None).unwrap();
    befriend(&mut b, &a, "alice");
    let (a_pub, c_pub) = (a.id, c.id);
    let mut nodes = vec![a, b];
    let _ = command(&mut nodes[0], NetCommand::FindAddress { recipient: c_pub }, at(1));
    assert_eq!(nodes[0].net.addr_queries.len(), 1);
    let nonce = nodes[0].net.addr_queries.entries[0].0;
    let ips = vec!["8.8.8.8:1".to_string()];
    let a_x = ed_pub_to_x25519(&a_pub).unwrap();
    let answer = |n: &Node, target: &[u8; 32]| {
        let inner = encode_addr_answer(target, &nonce, &ips);
        n.net.seal_packet(PktType::AddrAnswer, 0, 0, &a_pub, &a_x, &inner).ok().unwrap()
    };
    nodes[0].events.clear();
    let wrong = answer(&nodes[1], &[7; 32]);
    deliver(&mut nodes, vec![(12143, 12142, wrong)], at(2));
    assert_eq!(nodes[0].net.addr_queries.len(), 1);
    assert!(nodes[0].net.addr_queries.entries[0].1.answered.is_empty());
    assert!(!nodes[0].events.iter().any(|e| matches!(e, NetEvent::AddrResult { .. })));
    // Nor does one of a friend that was not asked end the query.
    let mut d = node(4, 12170);
    befriend(&mut nodes[0], &d, "dave");
    befriend(&mut d, &nodes[0], "alice");
    let miss = encode_addr_answer(&c_pub, &nonce, &[]);
    let miss = d.net.seal_packet(PktType::AddrAnswer, 0, 0, &a_pub, &a_x, &miss).ok().unwrap();
    deliver(&mut nodes, vec![(12170, 12142, miss)], at(2));
    assert_eq!(nodes[0].net.addr_queries.len(), 1);
    assert!(!nodes[0].events.iter().any(|e| matches!(e, NetEvent::AddrResult { .. })));
    let right = answer(&nodes[1], &c_pub);
    deliver(&mut nodes, vec![(12143, 12142, right)], at(3));
    assert_eq!(nodes[0].net.addr_queries.len(), 0);
    assert_eq!(nodes[0].friends.get(&c_pub).unwrap().ips, ips);
}
