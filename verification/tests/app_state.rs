use kokonachat::config::{Config, ConfigChange};
use kokonachat::crypto::id;
use kokonachat::crypto::keys::Identity;
use kokonachat::net::event::{NetCommand, NetEvent};
use kokonachat::store::friends::FriendStore;
use kokonachat::tui::app::{
    random_id16, Action, App, Dir, MsgKind, MsgStatus, WarnChoice, ATTACH_FILE, ATTACH_IMAGE,
    ATTACH_VIDEO, MAX_STATUS, NO_FRIEND,
};
use kokonachat::tui::events::{handle_key, KeyCode, KeyPress};
use kokonachat::tui::settings::{typed_identity, KeyChange, SeedError};
use kokonachat::tui::ui::{
    addresses, bubble_head, chat_title, first_visible, friend_head, help_line, message_head,
    narrow_head, online, sender_name, status_line, status_mark, unread_badge,
};

const A: [u8; 32] = [0xaa; 32];
const B: [u8; 32] = [0xbb; 32];

fn store() -> FriendStore {
    let mut s = FriendStore::new();
    s.add("alice".into(), A, Some("1.2.3.4:5".into())).unwrap();
    s.add("bob".into(), B, None).unwrap();
    s
}

fn app() -> App {
    let me = Identity::from_seed([1; 32]);
    App::new(
        &store(),
        &Config::default(),
        id::short(&me.ed_pub),
        me.user_id(),
        me.seed_hex(),
        "127.0.0.1".into(),
    )
}

fn type_text(app: &mut App, s: &str) {
    for c in s.chars() {
        handle_key(app, KeyPress { ctrl: false, code: KeyCode::Char(c) });
    }
}

fn press(app: &mut App, code: KeyCode) {
    handle_key(app, KeyPress { ctrl: false, code });
}

fn ctrl(app: &mut App, c: char) {
    handle_key(app, KeyPress { ctrl: true, code: KeyCode::Char(c) });
}

#[test]
fn the_start() {
    let a = app();
    assert_eq!(a.friends.len(), 2);
    assert_eq!(a.selected, 0);
    assert_eq!(a.status, vec![format!("KokonaChat @ {}", a.own_short)]);
    assert_eq!(a.own_nickname, "kokona");
    assert!(a.show_help && !a.quit && !a.auto_addr);
    assert!(a.avatar_feature && a.media_feature && !a.file_feature);
    assert!(a.current_msgs().is_empty());
}

#[test]
fn typing_and_sending() {
    let mut a = app();
    type_text(&mut a, "  hall\u{7}oX");
    press(&mut a, KeyCode::Backspace);
    assert_eq!(a.input, "  hallo");
    press(&mut a, KeyCode::Enter);
    assert_eq!(a.input, "");
    let acts = a.take_actions();
    assert_eq!(acts.len(), 2);
    match &acts[0] {
        Action::Net(NetCommand::Send { recipient, content, seq }) => {
            assert_eq!((*recipient, content.as_str(), *seq), (A, "hallo", 0));
        }
        _ => panic!("a command expected"),
    }
    match &acts[1] {
        Action::Log { text, .. } => assert_eq!(text, "> aaaaaaaaaaaa: hallo"),
        _ => panic!("a log line expected"),
    }
    assert!(a.take_actions().is_empty());
    let m = a.current_msgs();
    assert_eq!(m.len(), 1);
    assert!(m[0].dir == Dir::Out && m[0].status == MsgStatus::Sending && m[0].text == "hallo");
    type_text(&mut a, "again");
    a.send_current_at(99);
    assert_eq!(a.current_msgs()[1].seq, 1);
    assert_eq!(a.current_msgs()[1].ts, 99);
    press(&mut a, KeyCode::Enter);
    assert_eq!(a.current_msgs().len(), 2);
}

#[test]
fn moving_between_friends() {
    let mut a = app();
    press(&mut a, KeyCode::Tab);
    assert_eq!(a.current_pubkey(), Some(id::encode(B)));
    ctrl(&mut a, 'n');
    assert_eq!(a.selected, 1);
    ctrl(&mut a, 'p');
    ctrl(&mut a, 'p');
    assert_eq!(a.selected, 0);
    ctrl(&mut a, 'h');
    assert!(!a.show_help);
    ctrl(&mut a, 'x');
    press(&mut a, KeyCode::Other);
    assert!(!a.quit);
    ctrl(&mut a, 'q');
    assert!(a.quit);
    let mut b = app();
    press(&mut b, KeyCode::Esc);
    assert!(b.quit);
}

#[test]
fn acknowledged_and_failed() {
    let mut a = app();
    for t in ["one", "two"] {
        type_text(&mut a, t);
        press(&mut a, KeyCode::Enter);
    }
    a.handle_event(NetEvent::MessageAcked { to: A, seq: 0 });
    a.handle_event(NetEvent::MessageFailed { to: A, seq: 1 });
    let m = a.current_msgs();
    assert!(m[0].status == MsgStatus::Sent && m[1].status == MsgStatus::Failed);
    assert_eq!(
        a.status.last().unwrap(),
        "消息到 aaaaaaaaaaaa 发送失败（无响应）。Ctrl+F 查找新地址 / Ctrl+R 重发"
    );
    a.take_actions();
    ctrl(&mut a, 'r');
    let acts = a.take_actions();
    assert_eq!(acts.len(), 1);
    match &acts[0] {
        Action::Net(NetCommand::Send { content, seq, .. }) => {
            assert_eq!((content.as_str(), *seq), ("two", 2));
        }
        _ => panic!("a command expected"),
    }
    assert_eq!(a.status.last().unwrap(), "已重发失败消息");
    press(&mut a, KeyCode::Tab);
    ctrl(&mut a, 'r');
    assert_eq!(a.status.last().unwrap(), "当前会话没有失败的已发送消息");
}

#[test]
fn asking_for_addresses() {
    let mut a = app();
    ctrl(&mut a, 'f');
    let acts = a.take_actions();
    assert!(matches!(&acts[0], Action::Net(NetCommand::FindAddress { recipient }) if *recipient == A));
    assert_eq!(a.status.last().unwrap(), "正在请求共同好友提供 aaaaaaaaaaaa 的新地址…");
    a.set_auto_addr(true);
    let acts = a.take_actions();
    assert!(matches!(&acts[0], Action::Configure(ConfigChange::AutoAddressing(true))));
    a.handle_event(NetEvent::MessageFailed { to: B, seq: 9 });
    let acts = a.take_actions();
    assert!(matches!(&acts[0], Action::Net(NetCommand::FindAddress { recipient }) if *recipient == B));
    a.handle_event(NetEvent::AddrResult { target: B, found: true, count: 2 });
    assert_eq!(
        a.status.last().unwrap(),
        "寻址成功：bbbbbbbbbbbb 的新地址已更新（2 个），已自动重发失败消息"
    );
    a.handle_event(NetEvent::AddrResult { target: B, found: false, count: 0 });
    assert_eq!(a.status.last().unwrap(), "寻址失败：未找到 bbbbbbbbbbbb 的新地址");
}

#[test]
fn what_comes_in() {
    let mut a = app();
    a.handle_event(NetEvent::MessageReceived { from: B, content: "hi".into(), seq: 4, ts: 77 });
    assert_eq!(a.unread(&id::encode(B)), 1);
    assert_eq!(a.unread(&id::encode(A)), 0);
    assert_eq!(a.friends[1].last_seen, Some(77));
    assert_eq!(a.status.last().unwrap(), "收到 bbbbbbbbbbbb: hi");
    let acts = a.take_actions();
    assert!(matches!(&acts[0], Action::Log { ts: 77, text } if text == "< bbbbbbbbbbbb: hi"));
    a.handle_event(NetEvent::AttachReceived {
        from: B,
        kind: ATTACH_IMAGE,
        name: "x.png".into(),
        data: vec![1, 2],
        ts: 78,
    });
    a.handle_event(NetEvent::AttachReceived {
        from: [0xcc; 32],
        kind: 9,
        name: "y".into(),
        data: vec![3],
        ts: 79,
    });
    assert_eq!(a.status.last().unwrap(), "收到 cccccccccccc 的附件: y");
    a.select_next();
    let m = a.current_msgs();
    assert!(matches!(&m[1].kind, MsgKind::Image(d) if *d == vec![1, 2]));
    assert_eq!(a.unread(&id::encode([0xcc; 32])), 1);
    a.handle_event_at(NetEvent::FriendSeen { id: A }, 500);
    assert_eq!(a.friends[0].last_seen, Some(500));
    a.handle_event(NetEvent::Status("note".into()));
    assert_eq!(a.status.last().unwrap(), "note");
}

#[test]
fn the_status_stays_short() {
    let mut a = app();
    for i in 0..30 {
        a.push_status(format!("{i}"));
    }
    assert_eq!(a.status.len(), MAX_STATUS);
    assert_eq!(a.status[0], "10");
    assert_eq!(a.status[19], "29");
}

#[test]
fn friends_that_come_and_go() {
    let mut a = app();
    a.select_next();
    let mut s = FriendStore::new();
    s.add("carol".into(), [0xcc; 32], None).unwrap();
    a.refresh(&s);
    assert_eq!(a.selected, 0);
    assert_eq!(a.current().unwrap().nickname, "carol");
    type_text(&mut a, "welcome");
    press(&mut a, KeyCode::Enter);
    assert_eq!(a.current_msgs().len(), 1);
    a.refresh(&FriendStore::new());
    assert!(a.current().is_none());
    assert!(a.current_msgs().is_empty());
    press(&mut a, KeyCode::Enter);
    a.find_address();
    a.retry_failed();
    a.selected = NO_FRIEND;
    a.refresh(&store());
    assert_eq!(a.selected, NO_FRIEND);
    a.select_next();
    assert_eq!(a.selected, NO_FRIEND);
}

#[test]
fn features_go_together() {
    let mut a = app();
    a.set_feature(3, true);
    assert!(a.avatar_feature && a.media_feature && a.file_feature);
    a.set_feature(2, false);
    assert!(a.avatar_feature && !a.media_feature && !a.file_feature);
    a.set_feature(1, false);
    assert!(!a.avatar_feature);
    a.set_feature(2, true);
    assert!(a.avatar_feature && a.media_feature && !a.file_feature);
    a.set_feature(3, true);
    a.set_feature(1, false);
    assert!(!a.avatar_feature && !a.media_feature && !a.file_feature);
    a.set_feature(9, true);
    assert!(!a.avatar_feature && !a.media_feature && !a.file_feature);
    let acts = a.take_actions();
    assert!(matches!(
        &acts[0],
        Action::Configure(ConfigChange::Features { avatar: true, media: true, file: true })
    ));
}

#[test]
fn configuration_changes() {
    let mut c = Config::default();
    c.apply(ConfigChange::Nickname("n".into()));
    c.apply(ConfigChange::NoWarnLarge(true));
    c.apply(ConfigChange::AvatarPath(Some("p".into())));
    c.apply(ConfigChange::PublicIpv4(Some("8.8.8.8".into())));
    c.apply(ConfigChange::AutoAddressing(true));
    c.apply(ConfigChange::Features { avatar: false, media: false, file: true });
    assert_eq!(c.nickname, "n");
    assert!(c.no_warn_large_attach && c.auto_addressing && c.file_feature);
    assert!(!c.avatar_feature && !c.media_feature);
    assert_eq!(c.avatar_path, Some("p".to_string()));
    assert_eq!(c.public_ipv4, Some("8.8.8.8".to_string()));
    assert_eq!(c.port, 1212);
}

#[test]
fn nicknames_and_avatars() {
    let mut a = app();
    a.set_nickname("  ");
    assert!(a.take_actions().is_empty());
    a.set_nickname(" neu ");
    assert_eq!((a.own_nickname.as_str(), a.nick_input.as_str()), ("neu", "neu"));
    assert_eq!(a.status.last().unwrap(), "昵称已更新为：neu");
    assert_eq!(a.avatar_signature(5), "custom_missing");
    assert_eq!(a.custom_avatar(true), None);
    a.set_avatar_from(Some("/x/avatar.png".into()));
    assert_eq!(a.avatar_signature(5), "custom|/x/avatar.png|5");
    assert_eq!(a.custom_avatar(true), Some("/x/avatar.png".to_string()));
    assert_eq!(a.custom_avatar(false), None);
    assert_eq!(a.status.last().unwrap(), "头像已更新");
    a.set_avatar_from(None);
    assert_eq!(a.status.last().unwrap(), "头像保存失败");
    a.set_feature(1, false);
    assert_eq!(a.avatar_signature(5), "default");
    assert_eq!(a.custom_avatar(true), None);
    a.set_avatar_path(None);
    assert_eq!(a.avatar_path, None);
}

#[test]
fn changing_the_key() {
    let mut a = app();
    let seed = "ab".repeat(32);
    let padded = format!(" {seed} ");
    let i = typed_identity(&padded).ok().unwrap();
    assert_eq!(i.seed, [0xab; 32]);
    a.set_seed(&i);
    assert_eq!(a.own_id, i.user_id());
    assert_eq!(a.seed_hex, seed);
    assert_eq!(a.own_short, a.own_id[..12]);
    assert_eq!(a.status.last().unwrap(), "身份密钥已更新（重启后生效）。");
    let zs = "zz".repeat(32);
    assert_eq!(typed_identity(&zs).err(), Some(SeedError::Hex));
    assert_eq!(typed_identity("ab").err(), Some(SeedError::Length));
    assert_eq!(SeedError::Length.message(), "种子必须是 64 位 hex（32 字节）");
    let n = a.regenerate_key();
    assert_eq!(a.own_id, n.user_id());
    assert_ne!(a.seed_hex, seed);
}

#[test]
fn friends_by_link() {
    let mut a = app();
    let mut s = store();
    let cfg = Config::default();
    let own = a.invite_link(&cfg);
    assert_eq!(
        a.add_friend_from_link(&own, &mut s).err().unwrap().message(),
        "二维码里的用户就是本机账户，不能添加自己"
    );
    let other = Identity::from_seed([5; 32]);
    let mut b = app();
    b.own_id = other.user_id();
    let link = b.invite_link(&cfg);
    a.add_friend_from_link(&link, &mut s).unwrap();
    assert!(s.contains(&other.ed_pub));
    assert_eq!(s.get(&other.ed_pub).unwrap().ips, vec!["127.0.0.1:1212"]);
    assert_eq!(a.status.last().unwrap(), "已通过扫码添加好友");
    let n = a.status.len();
    a.add_friend_from_link(&link, &mut s).unwrap();
    assert_eq!(a.status.len(), n);
    let talk = format!("kokonachat://talk?pubkey={}", id::encode([9; 32]));
    assert_eq!(
        a.add_friend_from_link(&talk, &mut s).err().unwrap().message(),
        "这是“开始聊天”链接，不是加好友链接"
    );
    assert_eq!(
        a.add_friend_from_link("x", &mut s).err().unwrap().message(),
        "链接无效: 不是 kokonachat:// 链接: x"
    );
    a.own_id = "?".to_string();
    assert!(a.add_friend_from_link(&link, &mut s).err().unwrap().message().starts_with("本机身份异常: "));
    assert_eq!(a.invite_link(&cfg), "");
}

#[test]
fn attachments() {
    let mut a = app();
    let big = 2 * 1024 * 1024 + 1;
    assert!(a.pick_attach(ATTACH_VIDEO, "/v.mp4".into(), Some("v.mp4".into()), big).is_none());
    assert!(a.warn_attach.is_some());
    assert!(a.resolve_warn(WarnChoice::Cancel).is_none());
    assert!(a.warn_attach.is_none());
    assert!(a.pick_attach(ATTACH_VIDEO, "/v.mp4".into(), None, big).is_none());
    let d = a.resolve_warn(WarnChoice::ConfirmNoMore).unwrap();
    assert_eq!(d.name, "附件");
    assert!(a.no_warn_large_attach);
    let d = a.pick_attach(ATTACH_FILE, "/f".into(), Some("f".into()), big).unwrap();
    a.take_actions();
    a.send_attach_at(d, Ok(vec![1, 2, 3]), 5, [7; 16]);
    let acts = a.take_actions();
    assert!(matches!(&acts[0], Action::Log { ts: 5, text } if text == "> aaaaaaaaaaaa: [附件 3 f]"));
    match &acts[1] {
        Action::Net(NetCommand::SendAttach { recipient, kind, name, data, ts, transfer }) => {
            assert_eq!((*recipient, *kind, name.as_str(), *ts), (A, 3, "f", 5));
            assert_eq!((data.clone(), *transfer), (vec![1, 2, 3], [7; 16]));
        }
        _ => panic!("a command expected"),
    }
    assert!(a.current_msgs()[0].status == MsgStatus::Sending);
    a.handle_event(NetEvent::AttachFailed { to: A, transfer: [7; 16] });
    assert!(a.current_msgs()[0].status == MsgStatus::Failed);
    a.handle_event(NetEvent::AttachAcked { to: A, transfer: [8; 16] });
    assert!(a.current_msgs()[0].status == MsgStatus::Failed);
    a.handle_event(NetEvent::AttachAcked { to: A, transfer: [7; 16] });
    assert!(a.current_msgs()[0].status == MsgStatus::Sent);
    assert_eq!(a.status.last().unwrap(), "附件已送达 aaaaaaaaaaaa");
    let d = a.pick_attach(ATTACH_FILE, "/g".into(), None, 1).unwrap();
    a.confirm_send_attach(d, Err("gone".into()));
    assert_eq!(a.status.last().unwrap(), "读取附件失败: gone");
    let d = a.pick_attach(ATTACH_IMAGE, "/i".into(), None, 1).unwrap();
    a.confirm_send_attach(d, Ok(vec![]));
    assert!(a.current_msgs()[1].transfer.is_some());
    assert_ne!(random_id16(), random_id16());
}

#[test]
fn texts_on_the_screen() {
    let mut a = app();
    let f = a.friends[0].clone();
    assert!(!online(&f, 10));
    let mut g = a.friends[0].clone();
    g.last_seen = Some(1000);
    assert!(online(&g, 300_999));
    assert!(!online(&g, 301_000));
    assert!(online(&g, 0));
    assert_eq!(unread_badge(0), "");
    assert_eq!(unread_badge(12), " [未读 12]");
    assert_eq!(chat_title(&a), " 与 alice（aaaaaaaaaaaa）的聊天 ");
    assert_eq!(addresses(&f), "1.2.3.4:5");
    assert_eq!(addresses(&a.friends[1]), "-");
    assert_eq!(friend_head(&f), "alice · aaaaaaaaaaaa");
    assert_eq!(narrow_head(&f, 3), "alice · 未读 3\naaaaaaaaaaaa");
    assert_eq!(narrow_head(&f, 0), "alice\naaaaaaaaaaaa");
    assert_eq!(message_head("10:00:00", "me"), "[10:00:00] me: ");
    assert_eq!(status_mark(MsgStatus::Sending), " …");
    assert_eq!(status_mark(MsgStatus::Sent), " ✓");
    assert_eq!(status_mark(MsgStatus::Failed), " ✗ [失败]");
    assert_eq!(first_visible(10, 3), 7);
    assert_eq!(first_visible(2, 3), 0);
    a.push_status("now".into());
    assert_eq!(status_line(&a), " now");
    a.auto_addr = true;
    assert_eq!(status_line(&a), " now  [自动寻址:开]");
    assert!(help_line(&a).contains("Ctrl+Q"));
    a.show_help = false;
    assert_eq!(help_line(&a), "");
    type_text(&mut a, "x");
    press(&mut a, KeyCode::Enter);
    let m = &a.current_msgs()[0];
    assert_eq!(sender_name(&a, m), a.own_short);
    assert_eq!(bubble_head(&a, m, "10:00"), "10:00 我 ↑送中");
    a.handle_event(NetEvent::MessageReceived { from: A, content: "y".into(), seq: 0, ts: 1 });
    let m = &a.current_msgs()[1];
    assert_eq!(sender_name(&a, m), "alice");
    assert_eq!(bubble_head(&a, m, "10:00"), "10:00 alice");
    a.selected = NO_FRIEND;
    assert_eq!(chat_title(&a), " 聊天（尚未选择好友） ");
    assert_eq!(sender_name(&a, m), "对方");
}

#[test]
fn keys_change_only_when_confirmed() {
    let mut a = app();
    let id = a.own_id.clone();
    assert!(a.answer_key_dialog(true).is_none());
    a.ask_key_change(false);
    assert_eq!(a.confirm_key.as_deref(), Some("regenerate"));
    assert!(a.answer_key_dialog(false).is_none());
    assert_eq!(a.confirm_key, None);
    a.ask_key_change(false);
    assert!(matches!(a.answer_key_dialog(true), Some(KeyChange::Regenerate)));
    a.ask_key_change(true);
    assert_eq!(a.confirm_key.as_deref(), Some("manual"));
    a.seed_input = "abc".to_string();
    assert!(matches!(a.answer_key_dialog(true), Some(KeyChange::Seed(t)) if t == "abc"));
    assert_eq!((a.confirm_key.clone(), a.seed_input.as_str()), (None, ""));
    a.ask_key_change(true);
    a.seed_input = "abc".to_string();
    assert!(a.answer_key_dialog(false).is_none());
    assert_eq!(a.seed_input, "");
    assert_eq!(a.own_id, id);
}

#[test]
fn nicknames_change_only_when_confirmed() {
    let mut a = app();
    a.nick_input = " neu ".to_string();
    a.answer_nick_dialog(true);
    assert_eq!(a.own_nickname, "kokona");
    a.ask_nickname();
    assert!(a.confirm_nick);
    a.answer_nick_dialog(false);
    assert!(!a.confirm_nick);
    assert_eq!(a.own_nickname, "kokona");
    assert!(a.take_actions().is_empty());
    a.ask_nickname();
    a.answer_nick_dialog(true);
    assert!(!a.confirm_nick);
    assert_eq!(a.own_nickname, "neu");
    let acts = a.take_actions();
    assert!(matches!(&acts[0], Action::Configure(ConfigChange::Nickname(n)) if n == "neu"));
}
