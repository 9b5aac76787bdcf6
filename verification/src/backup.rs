//! Backups, which only the account that made them can read.
//!
//! | bytes  | contents                          |
//! |--------|-----------------------------------|
//! | 0..4   | `KOKB`                            |
//! | 4      | version                           |
//! | 5      | kind                              |
//! | 6..14  | time of the export, big-endian    |
//! | 14..18 | length of the envelope, big-endian |
//! | 18..   | envelope, sealed for ourselves    |
//!
//! The plaintext holds the configuration and the friend list, the messages,
//! or both.

use vstd::prelude::*;

use crate::bytes::{
    append, be32, be32_at, be64, be64_at, cut, get_be32, get_be64, lemma_be32, lemma_be32_at, lemma_be64,
    lemma_be64_at,
    lemma_be_at_slice, push_be32, push_be64, same_bytes,
};
use crate::crypto::cipher::{self, is_sealed, opened, SealedView};
use crate::crypto::keys::Identity;
use crate::crypto::primitives;
use crate::net::node::{me_of, Me};
use crate::net::packet::{
    envelope, envelope_close, envelope_of, envelope_open, law_envelope_round_trip, ENVELOPE_MIN,
};
use crate::text::{chars_of, decimal, opt_text, push_decimal};

verus! {

/// `KOKB`
pub const MAGIC: [u8; 4] = [75, 79, 75, 66];

pub const VERSION: u8 = 1;

/// Configuration and friend list.
pub const KIND_CORE: u8 = 1;

/// Messages.
pub const KIND_CHAT: u8 = 2;

/// All of it.
pub const KIND_ALL: u8 = 3;

/// Length of what stands before the envelope.
pub const FRAME_LEN: usize = 18;

/// Why a backup is not written or read.
#[derive(Clone, Copy, Debug, PartialEq, Eq, Structural)]
pub enum BackupError {
    TooShort,
    NotBackup,
    Version(u8),
    Length,
    Envelope,
    NoKey,
    Encrypt,
    Decrypt,
}

impl BackupError {
    pub open spec fn text(self) -> Seq<char> {
        match self {
            BackupError::TooShort => "备份文件过短或已损坏"@,
            BackupError::NotBackup => "不是 KokonaChat 备份文件"@,
            BackupError::Version(v) => "备份版本不受支持: "@ + decimal(v as nat),
            BackupError::Length => "备份长度不匹配，文件已损坏"@,
            BackupError::Envelope => "信封过短"@,
            BackupError::NoKey => "无法派生本机加密密钥"@,
            BackupError::Encrypt => "AES-GCM 加密失败"@,
            BackupError::Decrypt => "解密失败：备份不属于当前账户，或文件已损坏"@,
        }
    }

    pub fn message(&self) -> (r: String)
        ensures
            r@ == self.text(),
    {
        match self {
            BackupError::TooShort => "备份文件过短或已损坏".to_owned(),
            BackupError::NotBackup => "不是 KokonaChat 备份文件".to_owned(),
            BackupError::Version(v) => {
                let mut s = "备份版本不受支持: ".to_owned();
                push_decimal(&mut s, *v as u64);
                s
            },
            BackupError::Length => "备份长度不匹配，文件已损坏".to_owned(),
            BackupError::Envelope => "信封过短".to_owned(),
            BackupError::NoKey => "无法派生本机加密密钥".to_owned(),
            BackupError::Encrypt => "AES-GCM 加密失败".to_owned(),
            BackupError::Decrypt => "解密失败：备份不属于当前账户，或文件已损坏".to_owned(),
        }
    }
}

/// What is shown for a kind of backup.
pub open spec fn kind_text(kind: u8) -> Seq<char> {
    if kind == KIND_CORE {
        "配置+好友"@
    } else if kind == KIND_CHAT {
        "聊天记录"@
    } else {
        "配置+好友+聊天记录（合并大包）"@
    }
}

/// The name of a kind of backup.
pub fn kind_name(kind: u8) -> (r: String)
    ensures
        r@ == kind_text(kind),
{
    if kind == KIND_CORE {
        "配置+好友".to_owned()
    } else if kind == KIND_CHAT {
        "聊天记录".to_owned()
    } else {
        "配置+好友+聊天记录（合并大包）".to_owned()
    }
}

// ---------- framing ----------

/// The bytes of a backup around an envelope.
pub open spec fn frame(kind: u8, exported_at: u64, env: Seq<u8>) -> Seq<u8> {
    MAGIC@ + seq![VERSION, kind] + be64(exported_at) + be32(env.len() as u32) + env
}

/// The kind, the time and the envelope in the bytes of a backup.
pub open spec fn frame_of(raw: Seq<u8>) -> Result<(u8, u64, Seq<u8>), BackupError> {
    if raw.len() < FRAME_LEN {
        Err(BackupError::TooShort)
    } else if raw.take(4) != MAGIC@ {
        Err(BackupError::NotBackup)
    } else if raw[4] != VERSION {
        Err(BackupError::Version(raw[4]))
    } else {
        let n = be32_at(raw, 14) as int;
        if FRAME_LEN + n > raw.len() {
            Err(BackupError::Length)
        } else {
            Ok((raw[5], be64_at(raw, 6), raw.subrange(18, 18 + n)))
        }
    }
}

/// A backup gives back the kind, the time and the envelope that it was made
/// of.
pub proof fn law_frame_round_trip(kind: u8, exported_at: u64, env: Seq<u8>)
    requires
        env.len() <= u32::MAX,
    ensures
        frame_of(frame(kind, exported_at, env)) == Ok::<(u8, u64, Seq<u8>), BackupError>(
            (kind, exported_at, env),
        ),
{
    let raw = frame(kind, exported_at, env);
    lemma_be64(exported_at);
    lemma_be32(env.len() as u32);
    lemma_be_at_slice(raw, 6);
    lemma_be_at_slice(raw, 14);
    assert(raw.take(4) =~= MAGIC@);
    assert(raw.subrange(6, 14) =~= be64(exported_at));
    assert(raw.subrange(14, 18) =~= be32(env.len() as u32));
    assert(raw.subrange(18, 18 + env.len() as int) =~= env);
}

/// What was in a backup.
pub struct Backup {
    pub kind: u8,
    pub exported_at: u64,
    pub plain: Vec<u8>,
}

/// The contents of a [`Backup`].
#[verifier::ext_equal]
pub struct BackupView {
    pub kind: u8,
    pub exported_at: u64,
    pub plain: Seq<u8>,
}

impl View for Backup {
    type V = BackupView;

    open spec fn view(&self) -> BackupView {
        BackupView { kind: self.kind, exported_at: self.exported_at, plain: self.plain@ }
    }
}

// ---------- writing ----------

/// Whether bytes are a backup that an account made.
pub open spec fn is_backup(raw: Seq<u8>, me: Me, b: BackupView) -> bool {
    exists|sealed: SealedView| #[trigger]
        is_sealed(
            sealed,
            me.x25519_sk,
            primitives::edwards_to_montgomery(me.ed_pub)->0,
            me.ed_pub,
            me.ed_pub,
            b.plain,
        ) && raw == frame(b.kind, b.exported_at, envelope(sealed))
}

/// Writes a backup that only the given identity can read.
pub fn write_backup(kind: u8, exported_at: u64, plain: &[u8], identity: &Identity) -> (r: Result<
    Vec<u8>,
    BackupError,
>)
    ensures
        if primitives::edwards_to_montgomery(identity.ed_pub@) is None {
            r == Err::<Vec<u8>, BackupError>(BackupError::NoKey)
        } else if !primitives::gcm_fits(plain@.len()) {
            r == Err::<Vec<u8>, BackupError>(BackupError::Encrypt)
        } else {
            r matches Ok(raw) && is_backup(
                raw@,
                me_of(*identity),
                BackupView { kind, exported_at, plain: plain@ },
            )
        },
{
    let xpub = match cipher::ed_pub_to_x25519(&identity.ed_pub) {
        Some(x) => x,
        None => {
            return Err(BackupError::NoKey);
        },
    };
    let sealed = match cipher::seal(
        &identity.x25519_sk,
        &xpub,
        &identity.ed_pub,
        &identity.ed_pub,
        plain,
    ) {
        Ok(s) => s,
        Err(_) => {
            return Err(BackupError::Encrypt);
        },
    };
    let env = envelope_close(&sealed);
    let mut out: Vec<u8> = Vec::new();
    append(&mut out, &MAGIC);
    out.push(VERSION);
    out.push(kind);
    push_be64(&mut out, exported_at);
    push_be32(&mut out, env.len() as u32);
    append(&mut out, &env);
    assert(out@ =~= frame(kind, exported_at, env@));
    proof {
        let me = me_of(*identity);
        let b = BackupView { kind, exported_at, plain: plain@ };
        assert(is_sealed(
            sealed@,
            me.x25519_sk,
            primitives::edwards_to_montgomery(me.ed_pub)->0,
            me.ed_pub,
            me.ed_pub,
            b.plain,
        ));
        assert(out@ == frame(b.kind, b.exported_at, envelope(sealed@)));
    }
    Ok(out)
}

// ---------- reading ----------

/// What an account makes of the bytes of a backup.
pub open spec fn backup_of(raw: Seq<u8>, me: Me) -> Result<BackupView, BackupError> {
    match frame_of(raw) {
        Err(e) => Err(e),
        Ok((kind, exported_at, env)) => match envelope_of(env) {
            None => Err(BackupError::Envelope),
            Some(sealed) => match primitives::edwards_to_montgomery(me.ed_pub) {
                None => Err(BackupError::NoKey),
                Some(x) => match opened(sealed, me.x25519_sk, x, me.ed_pub, me.ed_pub) {
                    None => Err(BackupError::Decrypt),
                    Some(plain) => Ok(BackupView { kind, exported_at, plain }),
                },
            },
        },
    }
}

/// Reads a backup. An identity reads every backup that it made itself.
pub fn read_backup(raw: &[u8], identity: &Identity) -> (r: Result<Backup, BackupError>)
    ensures
        match backup_of(raw@, me_of(*identity)) {
            Ok(b) => r matches Ok(x) && x@ == b,
            Err(e) => r matches Err(x) && x == e,
        },
        identity.wf() ==> forall|b: BackupView|
            b.plain.len() <= u32::MAX - ENVELOPE_MIN && #[trigger] is_backup(
                raw@,
                me_of(*identity),
                b,
            ) ==> (r matches Ok(x) && x@ == b),
{
    proof {
        assert forall|b: BackupView|
            b.plain.len() <= u32::MAX - ENVELOPE_MIN && #[trigger] is_backup(
                raw@,
                me_of(*identity),
                b,
            ) implies came_from(raw@, *identity, b) by {
            lemma_backup_frame(raw@, *identity, b);
        }
    }
    if raw.len() < FRAME_LEN {
        return Err(BackupError::TooShort);
    }
    let magic = cut(raw, 0, 4);
    assert(magic@ =~= raw@.take(4));
    if !same_bytes(&magic, &MAGIC) {
        return Err(BackupError::NotBackup);
    }
    if raw[4] != VERSION {
        return Err(BackupError::Version(raw[4]));
    }
    let kind: u8 = raw[5];
    let exported_at: u64 = get_be64(raw, 6);
    let n: usize = get_be32(raw, 14) as usize;
    if raw.len() - FRAME_LEN < n {
        return Err(BackupError::Length);
    }
    let env = cut(raw, FRAME_LEN, FRAME_LEN + n);
    assert(frame_of(raw@) == Ok::<(u8, u64, Seq<u8>), BackupError>((kind, exported_at, env@)));
    let sealed = match envelope_open(&env) {
        Ok(s) => s,
        Err(_) => {
            return Err(BackupError::Envelope);
        },
    };
    let xpub = match cipher::ed_pub_to_x25519(&identity.ed_pub) {
        Some(x) => x,
        None => {
            return Err(BackupError::NoKey);
        },
    };
    match cipher::open(&sealed, &identity.x25519_sk, &xpub, &identity.ed_pub, &identity.ed_pub) {
        Ok(plain) => Ok(Backup { kind, exported_at, plain }),
        Err(_) => Err(BackupError::Decrypt),
    }
}

/// Whether the frame and the envelope in the bytes are those of a backup that
/// an identity made.
spec fn came_from(raw: Seq<u8>, identity: Identity, b: BackupView) -> bool {
    exists|sealed: SealedView| #[trigger]
        is_sealed(
            sealed,
            identity.x25519_sk@,
            primitives::edwards_to_montgomery(identity.ed_pub@)->0,
            identity.ed_pub@,
            identity.ed_pub@,
            b.plain,
        ) && frame_of(raw) == Ok::<(u8, u64, Seq<u8>), BackupError>(
            (b.kind, b.exported_at, envelope(sealed)),
        ) && envelope_of(envelope(sealed)) == Some(sealed)
}

proof fn lemma_backup_frame(raw: Seq<u8>, identity: Identity, b: BackupView)
    requires
        b.plain.len() <= u32::MAX - ENVELOPE_MIN,
        is_backup(raw, me_of(identity), b),
    ensures
        came_from(raw, identity, b),
{
    let me = me_of(identity);
    let sealed = choose|sealed: SealedView| #[trigger]
        is_sealed(
            sealed,
            me.x25519_sk,
            primitives::edwards_to_montgomery(me.ed_pub)->0,
            me.ed_pub,
            me.ed_pub,
            b.plain,
        ) && raw == frame(b.kind, b.exported_at, envelope(sealed));
    law_envelope_round_trip(sealed);
    law_frame_round_trip(b.kind, b.exported_at, envelope(sealed));
}

// ---------- what is saved and restored ----------

/// The contents of the files that are saved.
pub struct Files {
    pub config: String,
    pub friends: String,
    pub messages: String,
}

/// The contents of [`Files`].
#[verifier::ext_equal]
pub struct FilesView {
    pub config: Seq<char>,
    pub friends: Seq<char>,
    pub messages: Seq<char>,
}

impl View for Files {
    type V = FilesView;

    open spec fn view(&self) -> FilesView {
        FilesView { config: self.config@, friends: self.friends@, messages: self.messages@ }
    }
}

/// Configuration and friend list.
pub struct CoreSection {
    pub config: String,
    pub friends: String,
}

/// The plaintext of a backup.
pub struct BackupPayload {
    pub exported_at: u64,
    pub core: Option<CoreSection>,
    pub chat: Option<String>,
}

/// The contents of a [`BackupPayload`]; `core` is the configuration and the
/// friend list.
#[verifier::ext_equal]
pub struct PayloadView {
    pub exported_at: u64,
    pub core: Option<(Seq<char>, Seq<char>)>,
    pub chat: Option<Seq<char>>,
}

impl View for BackupPayload {
    type V = PayloadView;

    open spec fn view(&self) -> PayloadView {
        PayloadView {
            exported_at: self.exported_at,
            core: match self.core {
                Some(c) => Some((c.config@, c.friends@)),
                None => None,
            },
            chat: opt_text(self.chat),
        }
    }
}

/// What goes into a backup of a kind.
pub open spec fn payload_of(kind: u8, exported_at: u64, files: FilesView) -> PayloadView {
    PayloadView {
        exported_at,
        core: if kind == KIND_CHAT {
            None
        } else {
            Some((files.config, files.friends))
        },
        chat: if kind == KIND_CORE {
            None
        } else {
            Some(files.messages)
        },
    }
}

/// Collects what goes into a backup of a kind.
pub fn collect(kind: u8, exported_at: u64, files: Files) -> (r: BackupPayload)
    ensures
        r@ == payload_of(kind, exported_at, files@),
{
    let Files { config, friends, messages } = files;
    BackupPayload {
        exported_at,
        core: if kind == KIND_CHAT {
            None
        } else {
            Some(CoreSection { config, friends })
        },
        chat: if kind == KIND_CORE {
            None
        } else {
            Some(messages)
        },
    }
}

/// What a text is with a line break at its end, unless it is empty.
pub open spec fn appended(chat: Seq<char>) -> Seq<char> {
    if chat.len() == 0 || chat.last() == '\n' {
        chat
    } else {
        chat.push('\n')
    }
}

/// The messages of a backup as they are appended to the message file.
pub fn chat_to_append(chat: &str) -> (r: String)
    ensures
        r@ == appended(chat@),
{
    let c = chars_of(chat);
    let mut s = chat.to_owned();
    if c.len() > 0 && c[c.len() - 1] != '\n' {
        s.push('\n');
    }
    s
}

/// What is done to the files: some are replaced, some text is appended.
pub struct Restore {
    /// New contents of the configuration.
    pub config: Option<String>,
    /// New contents of the friend list.
    pub friends: Option<String>,
    /// What is appended to the message file.
    pub messages: Option<String>,
}

/// The contents of a [`Restore`].
#[verifier::ext_equal]
pub struct RestoreView {
    pub config: Option<Seq<char>>,
    pub friends: Option<Seq<char>>,
    pub messages: Option<Seq<char>>,
}

impl View for Restore {
    type V = RestoreView;

    open spec fn view(&self) -> RestoreView {
        RestoreView {
            config: opt_text(self.config),
            friends: opt_text(self.friends),
            messages: opt_text(self.messages),
        }
    }
}

/// What the plaintext of a backup does to the files. Its contents decide, not
/// the kind that the backup was marked with.
pub open spec fn restore_of(p: PayloadView) -> RestoreView {
    RestoreView {
        config: match p.core {
            Some(c) => Some(c.0),
            None => None,
        },
        friends: match p.core {
            Some(c) => Some(c.1),
            None => None,
        },
        messages: match p.chat {
            Some(chat) => Some(appended(chat)),
            None => None,
        },
    }
}

/// The files after a restore.
pub open spec fn restored(r: RestoreView, files: FilesView) -> FilesView {
    FilesView {
        config: match r.config {
            Some(c) => c,
            None => files.config,
        },
        friends: match r.friends {
            Some(f) => f,
            None => files.friends,
        },
        messages: match r.messages {
            Some(m) => files.messages + m,
            None => files.messages,
        },
    }
}

/// What the plaintext of a backup does to the files.
pub fn restore(payload: BackupPayload) -> (r: Restore)
    ensures
        r@ == restore_of(payload@),
{
    let messages = match &payload.chat {
        Some(chat) => Some(chat_to_append(chat)),
        None => None,
    };
    match payload.core {
        Some(c) => Restore { config: Some(c.config), friends: Some(c.friends), messages },
        None => Restore { config: None, friends: None, messages },
    }
}

/// What is appended is the text, with a line break at its end if there is any
/// text, and nothing else.
pub proof fn law_appended(chat: Seq<char>)
    ensures
        chat.len() == 0 ==> appended(chat) == chat,
        chat.len() > 0 ==> appended(chat).last() == '\n',
        appended(chat).take(chat.len() as int) == chat,
        appended(chat).len() <= chat.len() + 1,
        chat.len() > 0 && chat.last() == '\n' ==> appended(chat) == chat,
{
    assert(appended(chat).take(chat.len() as int) =~= chat);
}

/// The bytes of a backup are read exactly where they are a frame around the
/// envelope that is read, with or without more behind it.
pub proof fn law_frame_is_exact(raw: Seq<u8>)
    ensures
        frame_of(raw) matches Ok((kind, exported_at, env)) ==> frame(
            kind,
            exported_at,
            env,
        ).is_prefix_of(raw),
{
    if frame_of(raw) is Ok {
        let (kind, exported_at, env) = frame_of(raw)->Ok_0;
        let n = be32_at(raw, 14);
        lemma_be64_at(raw, 6);
        lemma_be32_at(raw, 14);
        lemma_five(raw, MAGIC@, be64(exported_at), be32(n), env);
    }
}

proof fn lemma_five(raw: Seq<u8>, a: Seq<u8>, x: Seq<u8>, y: Seq<u8>, env: Seq<u8>)
    requires
        raw.len() >= 18 + env.len(),
        a == raw.take(4),
        x == raw.subrange(6, 14),
        y == raw.subrange(14, 18),
        env == raw.subrange(18, 18 + env.len() as int),
    ensures
        (a + seq![raw[4], raw[5]] + x + y + env).is_prefix_of(raw),
{
    assert(a + seq![raw[4], raw[5]] + x + y + env =~= raw.take(18 + env.len() as int));
}

/// Whatever became of the files since the export, a restore replaces the
/// configuration and the friend list by the saved ones and appends the saved
/// messages; a backup of one part leaves the other as it is.
pub proof fn law_restore(kind: u8, exported_at: u64, saved: FilesView, now: FilesView)
    ensures
        ({
            let r = restored(restore_of(payload_of(kind, exported_at, saved)), now);
            &&& kind != KIND_CHAT ==> r.config == saved.config && r.friends == saved.friends
            &&& kind == KIND_CHAT ==> r.config == now.config && r.friends == now.friends
            &&& kind != KIND_CORE ==> r.messages == now.messages + appended(saved.messages)
            &&& kind == KIND_CORE ==> r.messages == now.messages
        }),
{
}

} // verus!
