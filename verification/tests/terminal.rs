use kokonachat::account::{
    add_friend, check_overlap, import_account, list_line, start_config, AddError,
};
use kokonachat::config::{default_true, normalize_public_ipv4, Config};
use kokonachat::crypto::id;
use kokonachat::crypto::keys::Identity;
use kokonachat::gui::avatar::decode_image;
use kokonachat::gui::qr::{cell_at, qr_cells};
use kokonachat::headless::{event_lines, greeting, on_event, sent_log, sent_text, split2, Mirror};
use kokonachat::net::event::NetEvent;
use kokonachat::store::friends::{Friend, FriendStore};
use kokonachat::store::log::log_line;
use kokonachat::util::{clock_of, date_of, format_time, format_ts, millis_of, unix_millis, LocalTime};

fn store() -> FriendStore {
    let mut s = FriendStore::new();
    s.add("alice".into(), [0xaa; 32], Some("1.2.3.4:5".into())).unwrap();
    s.add("bob".into(), [0xbb; 32], None).unwrap();
    s
}

#[test]
fn words() {
    assert_eq!(split2("  a  b c "), ("a".to_string(), " b c".to_string()));
    assert_eq!(split2("a"), ("a".to_string(), String::new()));
    assert_eq!(split2("  "), (String::new(), String::new()));
}

#[test]
fn lines_go_to_the_current_friend() {
    let s = store();
    let mut m = Mirror::new(&s);
    assert_eq!(m.cur, "alice");
    let t = m.on_input("  hello  ", &s);
    assert!(t.go_on && t.lines.is_empty());
    let o = t.send.unwrap();
    assert_eq!((o.recipient, o.nickname.as_str(), o.content.as_str(), o.seq), ([0xaa; 32], "alice", "hello", 0));
    let t = m.on_input("/to bob hi there", &s);
    let o = t.send.unwrap();
    assert_eq!((o.nickname.as_str(), o.content.as_str(), o.seq), ("bob", "hi there", 0));
    assert_eq!(m.cur, "bob");
    let o = m.on_input(":alice again", &s).send.unwrap();
    assert_eq!((o.nickname.as_str(), o.content.as_str(), o.seq), ("alice", "again", 1));
    assert!(m.on_input("   ", &s).send.is_none());
}

#[test]
fn commands_of_the_chat() {
    let s = store();
    let mut m = Mirror::new(&s);
    assert_eq!(m.on_input("/use bob", &s).lines, vec!["当前好友 -> bob"]);
    assert_eq!(m.cur, "bob");
    assert_eq!(m.on_input("/use", &s).lines, vec!["用法: /use <昵称>"]);
    assert_eq!(m.on_input("/use eve", &s).lines, vec!["找不到昵称 eve 的好友（用 /list 查看）"]);
    assert_eq!(m.on_input("/to bob", &s).lines, vec!["用法: /to <昵称> <内容>"]);
    assert_eq!(m.on_input("/to eve x", &s).lines, vec!["! 找不到昵称 eve 的好友（用 /list 查看）"]);
    assert_eq!(
        m.on_input("/list", &s).lines,
        vec!["  好友 alice        aaaaaaaaaaaa IP[1.2.3.4:5]", "  好友 bob          bbbbbbbbbbbb IP[]"]
    );
    assert_eq!(m.on_input("/help", &s).lines.len(), 7);
    assert_eq!(m.on_input("/nope x", &s).lines, vec!["未知命令: /nope（/help 查看帮助）"]);
    assert!(!m.on_input("/quit", &s).go_on);
    assert!(!m.on_input("/q", &s).go_on);
    let none = FriendStore::new();
    let mut m = Mirror::new(&none);
    assert_eq!(m.on_input("/list", &none).lines, vec!["好友列表为空"]);
    assert_eq!(m.on_input("x", &none).lines, vec!["! 还没有可发送的当前好友，用 /use <昵称> 指定"]);
    let odd = FriendStore::from_file(kokonachat::store::friends::FriendsFile {
        friends: vec![Friend {
            nickname: "odd".into(),
            pubkey: "xyz".into(),
            ips: vec![],
            last_seen: None,
        }],
    });
    let mut m = Mirror::new(&odd);
    assert_eq!(m.on_input("x", &odd).lines, vec!["! 好友公钥格式无效"]);
}

#[test]
fn lines_of_events() {
    let s = store();
    let a = [0xaa; 32];
    let e = NetEvent::MessageReceived { from: a, content: "hi".into(), seq: 3, ts: 0 };
    assert_eq!(event_lines(&e, &s, "10:00:00"), vec!["<<< 10:00:00 [3] alice: hi"]);
    assert!(on_event(&e, &s)[0].ends_with(" [3] alice: hi"));
    let e = NetEvent::MessageAcked { to: a, seq: 4 };
    assert_eq!(on_event(&e, &s), vec!["+ 已送达 [aaaaaaaaaaaa -> alice] seq=4"]);
    let e = NetEvent::MessageFailed { to: [0xcc; 32], seq: 4 };
    assert_eq!(
        on_event(&e, &s),
        vec!["- 发送失败 [cccccccccccc] seq=4（无响应），可在对方恢复后重发或寻址"]
    );
    let e = NetEvent::AddrResult { target: a, found: true, count: 2 };
    assert_eq!(on_event(&e, &s), vec!["@ 寻址结果: alice 命中", "   已询问 2 位共同好友"]);
    let e = NetEvent::AddrResult { target: a, found: false, count: 0 };
    assert_eq!(on_event(&e, &s)[0], "@ 寻址结果: alice 未命中");
    assert_eq!(on_event(&NetEvent::FriendSeen { id: a }, &s), vec!["* 好友在线: alice"]);
    assert_eq!(on_event(&NetEvent::Status("s".into()), &s), vec!["~ s"]);
    assert!(on_event(&NetEvent::AttachAcked { to: a, transfer: [0; 16] }, &s).is_empty());
    assert_eq!(sent_text(true, "bob", "x"), ">>> [bob] x");
    assert_eq!(sent_text(false, "bob", "x"), "! 消息队列已满");
    assert_eq!(sent_log("bob", "x"), "> bob: x");
    assert_eq!(greeting(&s, "alice").last().unwrap(), "  当前好友: alice");
    assert!(greeting(&FriendStore::new(), "")[0].starts_with("! 当前没有好友"));
}

#[test]
fn own_account_among_friends() {
    let s = store();
    assert!(check_overlap(&s, &[1; 32]).is_ok());
    let e = check_overlap(&s, &[0xbb; 32]).err().unwrap();
    assert_eq!(e.names, vec!["bob"]);
    assert!(e.message().contains("「bob」"));
}

#[test]
fn taking_over_accounts() {
    let me = Identity::from_seed([1; 32]);
    let other = Identity::from_seed([2; 32]);
    let mut s = FriendStore::new();
    let seed = format!(" {} ", other.seed_hex());
    let got = import_account(&seed, &s, Some(&me)).ok().unwrap();
    assert_eq!(got.ed_pub, other.ed_pub);
    let err = |text: &str, s: &FriendStore| import_account(text, s, Some(&me)).err().unwrap().message();
    assert_eq!(err(&me.seed_hex(), &s), "该种子就是当前身份，无需导入");
    assert_eq!(err("zz", &s), "种子应为 64 位 hex（即 init 输出的“种子备份”）");
    assert_eq!(err("0102", &s), "种子应为 32 字节（64 位 hex），实际 2 字节");
    s.add("twin".into(), other.ed_pub, None).unwrap();
    assert!(err(&other.seed_hex(), &s).contains("「twin」"));
}

#[test]
fn adding_friends_by_hand() {
    let mut s = FriendStore::new();
    let k = id::encode([5; 32]);
    assert_eq!(add_friend(&mut s, "n", &k, "2001:db8::1"), Ok("[2001:db8::1]:1212".to_string()));
    assert_eq!(s.get(&[5; 32]).unwrap().ips, vec!["[2001:db8::1]:1212"]);
    assert_eq!(add_friend(&mut s, "n", &k, "1.2.3.4"), Err(AddError::Duplicate));
    assert_eq!(add_friend(&mut s, "n", "xx", "1.2.3.4"), Err(AddError::Pubkey));
    assert_eq!(add_friend(&mut s, "n", &id::encode([6; 32]), "nope"), Err(AddError::Ip));
    assert_eq!(AddError::Ip.message(), "IP 格式错误（支持 ip / ip:port / [v6]:port）");
    let f = s.get(&[5; 32]).unwrap();
    assert_eq!(list_line(&f, None), "n            050505050505     IP[[2001:db8::1]:1212] 最近在线 -");
    assert!(list_line(&f, Some("01-02 03:04")).ends_with("最近在线 01-02 03:04"));
}

#[test]
fn options_take_precedence() {
    let c = start_config(Config::default(), Some(9), true);
    assert_eq!((c.port, c.auto_addressing), (9, true));
    let c = start_config(Config::default(), None, false);
    assert_eq!((c.port, c.auto_addressing), (1212, false));
    assert!(default_true());
}

#[test]
fn stable_public_addresses() {
    let msg = |s: &str| normalize_public_ipv4(s).err().unwrap().message();
    assert_eq!(normalize_public_ipv4(" 8.8.8.8:1212 ").ok().unwrap(), "8.8.8.8");
    assert_eq!(normalize_public_ipv4("1.2.3.4").ok().unwrap(), "1.2.3.4");
    assert_eq!(msg("nope"), "无法解析 IPv4 地址: nope");
    assert_eq!(msg("2001:db8::1"), "公网 IPv4 必须是 IPv4 地址: 2001:db8::1");
    assert_eq!(msg("0.0.0.0"), "地址不能是 0.0.0.0");
    assert_eq!(msg("10.0.0.1"), "10.0.0.1 不是公网 IPv4（回环/内网/保留地址不能作为稳定地址）");
}

#[test]
fn clocks() {
    let t = LocalTime { month: 3, day: 9, hour: 7, minute: 5, second: 59 };
    assert_eq!(clock_of(Some(t)), "07:05:59");
    assert_eq!(date_of(Some(t)), "03-09 07:05");
    assert_eq!(clock_of(None), "--:--:--");
    assert_eq!(date_of(None), "-");
    assert_eq!(millis_of(Some(5)), 5);
    assert_eq!(millis_of(None), 0);
    assert!(unix_millis() > 1_600_000_000_000);
    assert_eq!(format_time(0).len(), 8);
    assert_eq!(format_ts(86_400_000 * 40).len(), 11);
    assert!(format_time(59_000).ends_with(":59"));
    assert_eq!(format_time(u64::MAX / 2), "--:--:--");
    assert_ne!(format_time(8_210_266_876_799_999), "--:--:--");
    assert_eq!(format_time(8_210_266_876_800_000), "--:--:--");
    assert_ne!(format_ts(u64::MAX), "-");
    assert_ne!(format_ts((-8_334_601_228_800_000i64) as u64), "-");
    assert_eq!(format_ts((-8_334_601_228_800_001i64) as u64), "-");
    // Noon of the second of July 2024, UTC: every zone is within a day of it.
    let shown = format_ts(1_719_921_600_000);
    assert!(["07-01", "07-02", "07-03"].contains(&&shown[..5]), "{shown}");
    assert!(log_line(59_000, "> a: b").ends_with(":59 > a: b"));
}

#[test]
fn qr_codes() {
    let (w, cells) = qr_cells("kokonachat").unwrap();
    let want = qr_code::QrCode::new(b"kokonachat").unwrap();
    assert_eq!(w, want.width());
    assert_eq!(cells, want.to_vec());
    assert_eq!(w, 21);
    assert_eq!(cells.len(), w * w);
    assert!(qr_cells("").is_none());
    let long = "x".repeat(5000);
    assert!(qr_cells(&long).is_none());
    assert_eq!(cell_at(21, 0), (0, 0));
    assert_eq!(cell_at(21, 22), (1, 1));
}

#[test]
fn images() {
    let mut img = image::RgbaImage::new(2, 1);
    img.put_pixel(0, 0, image::Rgba([1, 2, 3, 255]));
    img.put_pixel(1, 0, image::Rgba([4, 5, 6, 7]));
    let mut png = std::io::Cursor::new(Vec::new());
    img.write_to(&mut png, image::ImageFormat::Png).unwrap();
    let a = decode_image(png.get_ref()).unwrap();
    assert_eq!((a.width, a.height), (2, 1));
    assert_eq!(a.rgba, vec![1, 2, 3, 255, 4, 5, 6, 7]);
    assert_eq!(a.clone().rgba, a.rgba);
    assert!(decode_image(b"no image").is_none());
}
