use kokonachat::config::Config;
use kokonachat::crypto::id;
use kokonachat::deeplink::percent::{parse_query, pct_decode, pct_encode};
use kokonachat::deeplink::{build_invite, desktop_entry, parse_url, Invite};

#[test]
fn build_parse_roundtrip() {
    let cfg = Config {
        port: 1212,
        auto_addressing: false,
        nickname: "心夏 Kokona".into(),
        public_ipv4: Some("8.8.8.8".into()),
        avatar_feature: true,
        media_feature: true,
        file_feature: false,
        avatar_path: None,
        no_warn_large_attach: false,
    };
    let pk = [0xab; 32];
    let url = build_invite(&cfg, pk, &["8.8.8.8:1212".into()]);
    assert!(url.starts_with("kokonachat://add?"));
    let inv = parse_url(&url).unwrap();
    match inv {
        Invite::Add { nickname, pubkey, ip } => {
            assert_eq!(nickname, "心夏 Kokona");
            assert_eq!(pubkey, pk);
            assert_eq!(ip, Some("8.8.8.8:1212".into()));
        }
        _ => panic!("应为 add"),
    }
}

#[test]
fn parse_talk_and_errors() {
    let pk = [1u8; 32];
    let k = id::encode(pk);
    match parse_url(&format!("kokonachat://talk?pubkey={k}")).unwrap() {
        Invite::Talk { pubkey } => assert_eq!(pubkey, pk),
        _ => panic!("应为 talk"),
    }
    assert!(parse_url("http://example.com").is_err());
    assert!(parse_url("kokonachat://add?nickname=x").is_err(), "缺 pubkey 应报错");
    assert!(parse_url("kokonachat://add?nickname=x&pubkey=zzz&ip=1.2.3.4").is_err(), "非法 pubkey 应报错");
    assert!(parse_url("kokonachat://add?nickname=x&pubkey=01&ip=not-an-ip").is_err(), "非法 ip 应报错");
}

#[test]
fn pct_roundtrip() {
    assert_eq!(pct_decode(&pct_encode("你好 world!")), "你好 world!");
    assert_eq!(pct_decode("2001%3Adb8%3A%3A1"), "2001:db8::1");
}

#[test]
fn percent_encoding_of_single_bytes() {
    assert_eq!(pct_encode("aZ09-_.~"), "aZ09-_.~");
    assert_eq!(pct_encode("a b/é"), "a%20b%2F%C3%A9");
    assert_eq!(pct_decode("%41%4a%4J%"), "AJ%4J%");
    assert_eq!(pct_decode("100%25"), "100%");
    assert_eq!(pct_decode("%ff"), "\u{fffd}");
}

#[test]
fn queries() {
    let v = parse_query("a=1&&b&c=&=d&a%3D=x%26y=z");
    let want = vec![("a", "1"), ("c", ""), ("", "d"), ("a=", "x&y=z")];
    assert_eq!(v.len(), want.len());
    for i in 0..v.len() {
        assert_eq!((v[i].0.as_str(), v[i].1.as_str()), want[i]);
    }
    assert!(parse_query("").is_empty());
}

fn add_parts(url: &str) -> (String, [u8; 32], Option<String>) {
    match parse_url(url).unwrap() {
        Invite::Add { nickname, pubkey, ip } => (nickname, pubkey, ip),
        _ => panic!("add expected"),
    }
}

#[test]
fn what_may_be_left_out() {
    let k = id::encode([0xcd; 32]);
    let (nick, pk, ip) = add_parts(&format!("  kokonachat://add?pubkey={k}&nickname=&ip=  "));
    assert_eq!(nick, "cdcdcdcdcdcd");
    assert_eq!(pk, [0xcd; 32]);
    assert_eq!(ip, None);
    let (_, _, ip) = add_parts(&format!("kokonachat://add?ip=2001%3Adb8%3A%3A1&pubkey={k}"));
    assert_eq!(ip, Some("[2001:db8::1]:1212".to_string()));
    let cfg = Config { nickname: "  ".to_string(), ..Config::default() };
    let (nick, _, ip) = add_parts(&build_invite(&cfg, [0xcd; 32], &[]));
    assert_eq!(nick, "cdcdcdcdcdcd");
    assert_eq!(ip, None);
    assert_eq!(parse_url(&build_invite(&cfg, [7; 32], &[])).unwrap().pubkey(), [7; 32]);
}

#[test]
fn every_link_error() {
    let k = id::encode([1; 32]);
    let cases = [
        ("  ".to_string(), "链接为空".to_string()),
        ("http://x".to_string(), "不是 kokonachat:// 链接: http://x".to_string()),
        ("plain".to_string(), "不是 kokonachat:// 链接: plain".to_string()),
        ("kokonachat://add?pubkey=".to_string(), "链接缺少 pubkey 参数".to_string()),
        ("kokonachat://talk".to_string(), "链接缺少 pubkey 参数".to_string()),
        ("kokonachat://add?pubkey=01".to_string(), "pubkey 不是有效的 64 位 hex".to_string()),
        (format!("kokonachat://add?pubkey={k}&ip=x"), "链接中的 ip 参数不合法".to_string()),
        ("kokonachat://talk?pubkey=01".to_string(), "用户 ID 应为 64 位 hex（公钥），收到 2 位".to_string()),
        (format!("kokonachat://sing?pubkey={k}"), "不支持的链接类型: sing".to_string()),
    ];
    for (url, want) in cases {
        assert_eq!(parse_url(&url).err().unwrap().message(), want);
    }
}

#[test]
fn desktop_entries() {
    let s = desktop_entry("/opt/kokonachat");
    assert!(s.starts_with("[Desktop Entry]\nType=Application\n"));
    assert!(s.contains("Exec=\"/opt/kokonachat\" handle %u\n"));
    assert!(s.contains("MimeType=x-scheme-handler/kokonachat;\n"));
}
