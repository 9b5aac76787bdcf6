use kokonachat::crypto::id;
use kokonachat::ipc::{
    add_friend_msg, handle_msg, ipc_base_port, port_at, read_port, reply_of, talk_msg, Msg,
};
use kokonachat::store::friends::FriendStore;

#[test]
fn port_derived_stable() {
    let root = r"C:\Users\tester\.kokona".as_bytes();
    assert_eq!(ipc_base_port(root), ipc_base_port(root));
    let other = r"C:\Users\tester\.kokona-b".as_bytes();
    assert!(ipc_base_port(root) != ipc_base_port(other));
    assert!((9100..=11099).contains(&ipc_base_port(root)));
}

#[test]
fn port_of_known_paths() {
    // FNV-1a: 0x811c9dc5 for nothing, 0xe40c292c for "a", 0xbf9cf968 for "foobar".
    assert_eq!(ipc_base_port(b""), 9100 + (0x811c9dc5u32 % 2000) as u16);
    assert_eq!(ipc_base_port(b"a"), 9100 + (0xe40c292cu32 % 2000) as u16);
    assert_eq!(ipc_base_port(b"foobar"), 9100 + (0xbf9cf968u32 % 2000) as u16);
}

#[test]
fn serve_and_forward_end_to_end() {
    let mut store = FriendStore::new();
    let pk = [7u8; 32];
    let r = handle_msg(add_friend_msg("喜多", &id::encode(pk), Some("1.2.3.4:1212")), &mut store);
    assert_eq!(r.text, "ok", "转发应成功: {:?}", r.text);
    assert!(store.contains(&pk), "运行实例的好友存储应已写入");
    assert!(store.take_unsaved());
    assert!(r.status.unwrap().contains("喜多"));
    assert_eq!(store.get(&pk).unwrap().ips, vec!["1.2.3.4:1212"]);

    let r = handle_msg(add_friend_msg("喜多", &id::encode(pk), None), &mut store);
    assert_eq!(r.text, "already");
    assert_eq!(r.status.unwrap(), "链接里的好友 喜多 已存在");
    assert!(!store.take_unsaved());
}

#[test]
fn talking_by_link() {
    let mut store = FriendStore::new();
    let k = id::encode([1; 32]);
    let r = handle_msg(talk_msg(&k), &mut store);
    assert_eq!(r.text, "err: not-friend");
    assert_eq!(r.status.unwrap(), "链接指向的用户还不是好友");
    store.add("a".into(), [1; 32], None).unwrap();
    let r = handle_msg(talk_msg(&k), &mut store);
    assert_eq!(r.text, "ok");
    assert_eq!(r.status.unwrap(), "链接已定位到好友，开始聊天吧");
}

#[test]
fn bad_requests() {
    let mut store = FriendStore::new();
    let msg = |cmd: &str, pubkey: Option<&str>| Msg {
        cmd: cmd.to_string(),
        nickname: None,
        pubkey: pubkey.map(|s| s.to_string()),
        ip: None,
    };
    assert_eq!(handle_msg(msg("talk", None), &mut store).text, "err: 缺少 pubkey");
    assert_eq!(
        handle_msg(msg("talk", Some("xyz")), &mut store).text,
        "err: pubkey 不是有效的 64 位 hex"
    );
    let k = id::encode([1; 32]);
    assert_eq!(handle_msg(msg("dance", Some(&k)), &mut store).text, "err: 未知命令 dance");
    assert_eq!(handle_msg(msg("add_friend", Some(&k)), &mut store).text, "ok");
    assert_eq!(store.get(&[1; 32]).unwrap().nickname, "");
}

#[test]
fn port_files_and_replies() {
    assert_eq!(read_port(" 9123\n"), Some(9123));
    assert_eq!(read_port("+9123"), Some(9123));
    assert_eq!(read_port("65536"), None);
    assert_eq!(read_port(""), None);
    assert_eq!(read_port("x"), None);
    assert_eq!(port_at(9100, 15), 9115);
    assert_eq!(port_at(65535, 1), 0);
    assert_eq!(reply_of(Some("already\n")), "already");
    assert_eq!(reply_of(Some("\n")), "ok");
    assert_eq!(reply_of(None), "err: 转发后未收到回复");
}
