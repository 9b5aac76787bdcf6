use kokonachat::backup::{
    chat_to_append, collect, kind_name, read_backup, restore, write_backup, BackupError, BackupPayload,
    CoreSection, Files, KIND_ALL, KIND_CHAT, KIND_CORE,
};
use kokonachat::crypto::keys::Identity;

const CONFIG: &str = "port = 1212\nnickname = \"kokona\"\n";
const FRIENDS: &str = "[[friends]]\nnickname = \"alice\"\npubkey = \"abcd\"\n";
const CHAT: &str = "11:00 > a: hi\n";

#[test]
fn export_import_roundtrip_for_same_identity() {
    let identity = Identity::generate();
    let files =
        Files { config: CONFIG.into(), friends: FRIENDS.into(), messages: CHAT.into() };
    let saved = collect(KIND_ALL, 77, files);
    let core = saved.core.unwrap();
    let plain =
        serde_json::to_vec(&(saved.exported_at, core.config, core.friends, saved.chat)).unwrap();
    let raw = write_backup(KIND_ALL, 77, &plain, &identity).ok().unwrap();

    let b = read_backup(&raw, &identity).ok().unwrap();
    assert_eq!(b.kind, KIND_ALL);
    assert_eq!(b.exported_at, 77);
    assert_eq!(b.plain, plain);
    let (exported_at, config, friends, chat): (u64, String, String, Option<String>) =
        serde_json::from_slice(&b.plain).unwrap();
    let core = Some(CoreSection { config, friends });
    let r = restore(BackupPayload { exported_at, core, chat });
    assert_eq!(r.config.unwrap(), "port = 1212\nnickname = \"kokona\"\n");
    assert!(r.friends.unwrap().contains("alice"));
    assert!(r.messages.unwrap().contains("hi"));
}

#[test]
fn different_identity_cannot_decrypt() {
    let alice = Identity::generate();
    let bob = Identity::generate();
    let raw = write_backup(KIND_ALL, 1, b"port = 1212\n", &alice).ok().unwrap();
    let err = read_backup(&raw, &bob).err().unwrap();
    assert!(err.message().contains("不属于当前账户"), "不同身份应解密失败: {}", err.message());
}

#[test]
fn separate_core_and_chat() {
    let identity = Identity::generate();
    let core = write_backup(KIND_CORE, 1, b"port = 1212\n", &identity).ok().unwrap();
    let chat = write_backup(KIND_CHAT, 2, b"===\n", &identity).ok().unwrap();
    assert_eq!(read_backup(&core, &identity).ok().unwrap().kind, KIND_CORE);
    assert_eq!(read_backup(&chat, &identity).ok().unwrap().plain, b"===\n");
}

#[test]
fn backup_layout() {
    let identity = Identity::from_seed([4; 32]);
    let raw = write_backup(KIND_CHAT, 0x0102030405060708, b"abc", &identity).ok().unwrap();
    assert_eq!(&raw[..4], b"KOKB");
    assert_eq!(raw[4], 1);
    assert_eq!(raw[5], 2);
    assert_eq!(&raw[6..14], &[1, 2, 3, 4, 5, 6, 7, 8]);
    assert_eq!(&raw[14..18], &[0, 0, 0, 63]);
    assert_eq!(raw.len(), 18 + 63);
}

#[test]
fn every_backup_error() {
    let identity = Identity::from_seed([4; 32]);
    let good = write_backup(KIND_ALL, 5, b"abc", &identity).ok().unwrap();
    let err = |raw: &[u8]| read_backup(raw, &identity).err().unwrap();
    assert_eq!(err(&good[..17]), BackupError::TooShort);
    let mut b = good.clone();
    b[3] = 0;
    assert_eq!(err(&b), BackupError::NotBackup);
    let mut b = good.clone();
    b[4] = 9;
    assert_eq!(err(&b), BackupError::Version(9));
    assert_eq!(err(&b).message(), "备份版本不受支持: 9");
    assert_eq!(err(&good[..40]), BackupError::Length);
    let mut b = good.clone();
    b[17] = 59;
    assert_eq!(err(&b), BackupError::Envelope);
    let mut b = good.clone();
    b[80] ^= 1;
    assert_eq!(err(&b), BackupError::Decrypt);
    let mut longer = good.clone();
    longer.extend_from_slice(b"trailing");
    assert!(read_backup(&longer, &identity).is_ok());
}

#[test]
fn names_and_line_ends() {
    assert_eq!(kind_name(KIND_CORE), "配置+好友");
    assert_eq!(kind_name(KIND_CHAT), "聊天记录");
    assert_eq!(kind_name(KIND_ALL), "配置+好友+聊天记录（合并大包）");
    assert_eq!(chat_to_append(""), "");
    assert_eq!(chat_to_append("a\n"), "a\n");
    assert_eq!(chat_to_append("a\nb"), "a\nb\n");
}

#[test]
fn parts_that_are_saved_and_restored() {
    let files = || Files { config: CONFIG.into(), friends: FRIENDS.into(), messages: "a\nb".into() };
    let all = collect(KIND_ALL, 7, files());
    assert_eq!(all.exported_at, 7);
    let r = restore(all);
    assert_eq!(r.config.as_deref(), Some(CONFIG));
    assert_eq!(r.friends.as_deref(), Some(FRIENDS));
    assert_eq!(r.messages.as_deref(), Some("a\nb\n"));
    let core = restore(collect(KIND_CORE, 7, files()));
    assert_eq!(core.config.as_deref(), Some(CONFIG));
    assert_eq!(core.messages, None);
    let chat = restore(collect(KIND_CHAT, 7, files()));
    assert_eq!((chat.config, chat.friends), (None, None));
    assert_eq!(chat.messages.as_deref(), Some("a\nb\n"));
}
