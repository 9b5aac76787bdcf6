use kokonachat::crypto::id;
use kokonachat::store::friends::{is_v6_addr, reachable_addr, DuplicateFriend, FriendStore, MAX_IPS};

#[test]
fn add_and_merge() {
    let mut s = FriendStore::new();
    let pk = [1u8; 32];
    s.add("alice".into(), pk, Some("2001:db8::1".into())).unwrap();
    assert!(s.contains(&pk));
    s.merge_ips(&pk, &["1.2.3.4".into(), "2001:db8::1".into()]);
    let f = s.get(&pk).unwrap();
    assert_eq!(f.ips[0], "2001:db8::1");
}

#[test]
fn merge_filters_unreachable_and_sorts_by_family() {
    let mut s = FriendStore::new();
    let pk = [2u8; 32];
    s.add("bob".into(), pk, Some("1.2.3.4:9999".into())).unwrap();
    s.merge_ips(
        &pk,
        &[
            "fe80::1".into(),
            "224.0.0.1".into(),
            "1.2.3.4:9999".into(),
            "2001:db8::2".into(),
        ],
    );
    let f = s.get(&pk).unwrap();
    assert!(!f.ips.iter().any(|x| x.starts_with("fe80")));
    assert!(!f.ips.iter().any(|x| x.starts_with("224")));
    assert_eq!(f.ips[0], "2001:db8::2");
    assert!(f.ips.contains(&"1.2.3.4:9999".to_string()));
    let v4_pos = f.ips.iter().position(|x| x == "1.2.3.4:9999").unwrap();
    let v6_pos = f.ips.iter().position(|x| x == "2001:db8::2").unwrap();
    assert!(v4_pos > v6_pos);
}

#[test]
fn update_last_seen_filters_unreachable() {
    let mut s = FriendStore::new();
    let pk = [3u8; 32];
    s.add("carol".into(), pk, None).unwrap();
    s.update_last_seen_and_ip(&pk, Some("fe80::1"));
    let f = s.get(&pk).unwrap();
    assert!(f.ips.is_empty(), "fe80 不应入库: {:?}", f.ips);
    assert!(s.update_last_seen_and_ip(&pk, Some("240e::5:1212")));
    let f = s.get(&pk).unwrap();
    assert!(f.ips.contains(&"240e::5:1212".to_string()));
}

#[test]
fn nobody_is_added_twice() {
    let mut s = FriendStore::new();
    s.add("a".into(), [1; 32], None).unwrap();
    assert_eq!(s.add("b".into(), [1; 32], None), Err(DuplicateFriend));
    assert_eq!(s.list().len(), 1);
    assert_eq!(s.list()[0].nickname, "a");
    assert_eq!(s.list()[0].pubkey, id::encode([1; 32]));
    assert_eq!(DuplicateFriend.message(), "该公钥已存在好友列表中");
}

#[test]
fn changes_are_to_be_stored() {
    let mut s = FriendStore::new();
    assert!(!s.take_unsaved());
    s.add("a".into(), [1; 32], None).unwrap();
    assert!(s.take_unsaved());
    assert!(!s.take_unsaved());
    assert!(!s.update_last_seen_and_ip_at(&[9; 32], None, 5));
    assert!(!s.take_unsaved());
    assert!(s.update_last_seen_and_ip_at(&[1; 32], Some("1.2.3.4:5"), 5));
    assert!(s.take_unsaved());
    assert!(!s.update_last_seen_and_ip_at(&[1; 32], Some("1.2.3.4:5"), 5));
    assert!(s.get(&[9; 32]).is_none());
}

#[test]
fn the_last_address_comes_first() {
    let mut s = FriendStore::new();
    let pk = [4; 32];
    s.add("d".into(), pk, Some("1.1.1.1:1".into())).unwrap();
    s.update_last_seen_and_ip_at(&pk, Some("2.2.2.2:2"), 7);
    assert_eq!(s.get(&pk).unwrap().ips, vec!["2.2.2.2:2", "1.1.1.1:1"]);
    s.update_last_seen_and_ip_at(&pk, Some("1.1.1.1:1"), 8);
    assert_eq!(s.get(&pk).unwrap().ips, vec!["1.1.1.1:1", "2.2.2.2:2"]);
    assert_eq!(s.get(&pk).unwrap().last_seen, Some(8));
    for i in 0..20u8 {
        let ip = format!("3.3.3.{i}:1");
        s.update_last_seen_and_ip_at(&pk, Some(&ip), 9);
    }
    assert_eq!(s.get(&pk).unwrap().ips.len(), MAX_IPS);
    assert_eq!(s.get(&pk).unwrap().ips[0], "3.3.3.19:1");
}

#[test]
fn families_by_what_the_text_reads_as() {
    assert!(is_v6_addr("2001:db8::1"));
    assert!(is_v6_addr("[2001:db8::1]:5"));
    assert!(!is_v6_addr("1.2.3.4:5"));
    assert!(!is_v6_addr("nonsense"));
    assert!(reachable_addr("1.2.3.4:5"));
    assert!(!reachable_addr("fe80::1"));
    assert!(!reachable_addr("nonsense"));
}

#[test]
fn merging_keeps_each_address_once() {
    let mut s = FriendStore::new();
    let pk = [1u8; 32];
    s.add("a".into(), pk, None).unwrap();
    assert!(s.merge_ips(&pk, &["1.2.3.4".into(), "1.2.3.4".into()]));
    assert_eq!(s.get(&pk).unwrap().ips, vec!["1.2.3.4"]);
    assert!(!s.merge_ips(&pk, &["1.2.3.4".into(), "1.2.3.4".into()]));
}
