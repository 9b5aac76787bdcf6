//! Settings, the identity, and adding friends by a link.

use vstd::prelude::*;
use vstd::utf8::encode_utf8;

use crate::bytes::same_array;
use crate::config::{ChangeView, Config, ConfigChange};
use crate::crypto::id::{self, hex_text, hex_value, id_of_text, IdError};
use crate::crypto::keys::{Identity, KeyError};
use crate::deeplink::{
    build_invite, invite_of, invite_text, parse_url, Invite, InviteView, LinkError, LinkFault,
};
use crate::store::friends::{befriended, has_friend, FriendStore, FriendView};
use crate::text::{
    byte_len, clone_opt, decimal, opt_text, push_decimal, same_text, texts, trimmed,
};
use crate::tui::app::{acting, shown, Action, ActionView, App, AppView};
use crate::tui::incoming::short_text;

verus! {

// ---------- features ----------

/// The number of the avatar feature.
pub const FEATURE_AVATAR: u8 = 1;

/// The number of the media feature.
pub const FEATURE_MEDIA: u8 = 2;

/// The number of the file feature.
pub const FEATURE_FILE: u8 = 3;

/// Which features are on: avatars, media, files.
pub struct Features {
    pub avatar: bool,
    pub media: bool,
    pub file: bool,
}

/// Files need media, and media need avatars.
pub open spec fn features_ordered(f: Features) -> bool {
    (f.file ==> f.media) && (f.media ==> f.avatar)
}

/// The features after one was set: what it needs goes on with it, what needs
/// it goes off with it.
pub open spec fn features_set(f: Features, feature: u8, on: bool) -> Features {
    if on {
        Features {
            avatar: f.avatar || 1 <= feature <= 3,
            media: f.media || 2 <= feature <= 3,
            file: f.file || feature == 3,
        }
    } else {
        Features {
            avatar: f.avatar && feature != 1,
            media: f.media && !(1 <= feature <= 2),
            file: f.file && !(1 <= feature <= 3),
        }
    }
}

/// The features of a state.
pub open spec fn features_of(s: AppView) -> Features {
    Features { avatar: s.avatar_feature, media: s.media_feature, file: s.file_feature }
}

/// The state after a feature was set.
pub open spec fn feature_set(s: AppView, feature: u8, on: bool) -> AppView {
    let f = features_set(features_of(s), feature, on);
    acting(
        AppView { avatar_feature: f.avatar, media_feature: f.media, file_feature: f.file, ..s },
        ActionView::Configure(
            ChangeView::Features { avatar: f.avatar, media: f.media, file: f.file },
        ),
    )
}

/// Whatever is set, files go only with media and media only with avatars; a
/// feature that is set is on, one that is cleared is off, and setting a
/// feature turns none off.
pub proof fn law_features(f: Features, feature: u8, on: bool)
    requires
        features_ordered(f),
    ensures
        features_ordered(features_set(f, feature, on)),
        feature == FEATURE_AVATAR ==> features_set(f, feature, on).avatar == on,
        feature == FEATURE_MEDIA ==> features_set(f, feature, on).media == on,
        feature == FEATURE_FILE ==> features_set(f, feature, on).file == on,
        on ==> (f.avatar ==> features_set(f, feature, on).avatar) && (f.media ==> features_set(
            f,
            feature,
            on,
        ).media) && (f.file ==> features_set(f, feature, on).file),
        !on ==> (features_set(f, feature, on).avatar ==> f.avatar) && (features_set(
            f,
            feature,
            on,
        ).media ==> f.media) && (features_set(f, feature, on).file ==> f.file),
{
}

fn set_features(f: Features, feature: u8, on: bool) -> (r: Features)
    ensures
        r == features_set(f, feature, on),
{
    if on {
        Features {
            avatar: f.avatar || (feature >= 1 && feature <= 3),
            media: f.media || (feature >= 2 && feature <= 3),
            file: f.file || feature == 3,
        }
    } else {
        Features {
            avatar: f.avatar && feature != 1,
            media: f.media && !(feature >= 1 && feature <= 2),
            file: f.file && !(feature >= 1 && feature <= 3),
        }
    }
}

// ---------- the identity ----------

/// Why a text is no seed.
#[derive(Clone, Copy, Debug, PartialEq, Eq, Structural)]
pub enum SeedError {
    /// The text does not have 64 bytes.
    Length,
    /// The text is not hexadecimal.
    Hex,
}

impl SeedError {
    pub open spec fn text(self) -> Seq<char> {
        match self {
            SeedError::Length => "种子必须是 64 位 hex（32 字节）"@,
            SeedError::Hex => "非法 hex 字符串"@,
        }
    }

    pub fn message(&self) -> (r: String)
        ensures
            r@ == self.text(),
    {
        match self {
            SeedError::Length => "种子必须是 64 位 hex（32 字节）".to_owned(),
            SeedError::Hex => "非法 hex 字符串".to_owned(),
        }
    }
}

/// The identity of a seed that a user typed in; blanks around it do not
/// count.
pub fn typed_identity(text: &str) -> (r: Result<Identity, SeedError>)
    ensures
        ({
            let b = encode_utf8(trimmed(text@));
            if b.len() != 64 {
                r matches Err(SeedError::Length)
            } else {
                match hex_value(b) {
                    None => r matches Err(SeedError::Hex),
                    Some(seed) => r matches Ok(i) && i.wf() && i.seed@ == seed,
                }
            }
        }),
{
    let t = text.trim();
    if byte_len(t) != 64 {
        return Err(SeedError::Length);
    }
    match Identity::from_seed_hex(t) {
        Ok(i) => Ok(i),
        Err(KeyError::Hex) => Err(SeedError::Hex),
        Err(KeyError::Length) => Err(SeedError::Length),
    }
}

/// The state with another identity and a status line about it.
pub open spec fn identity_set(s: AppView, ed_pub: Seq<u8>, seed: Seq<u8>, line: Seq<char>) -> AppView {
    shown(
        AppView {
            own_short: short_text(ed_pub),
            own_id: hex_text(ed_pub),
            seed_hex: hex_text(seed),
            ..s
        },
        line,
    )
}

// ---------- friends by link ----------

/// Why a link adds no friend.
#[derive(Debug)]
pub enum LinkRefusal {
    /// The text is no link.
    Invalid(LinkError),
    /// Our own user ID is none.
    OwnId(IdError),
    /// The link is about ourselves.
    Myself,
    /// The link is to talk to someone.
    NotInvite,
}

/// The contents of a [`LinkRefusal`].
#[verifier::ext_equal]
pub enum RefusalView {
    Invalid(LinkFault),
    OwnId(IdError),
    Myself,
    NotInvite,
}

impl View for LinkRefusal {
    type V = RefusalView;

    open spec fn view(&self) -> RefusalView {
        match self {
            LinkRefusal::Invalid(e) => RefusalView::Invalid(e@),
            LinkRefusal::OwnId(e) => RefusalView::OwnId(*e),
            LinkRefusal::Myself => RefusalView::Myself,
            LinkRefusal::NotInvite => RefusalView::NotInvite,
        }
    }
}

impl RefusalView {
    pub open spec fn text(self) -> Seq<char> {
        match self {
            RefusalView::Invalid(e) => "链接无效: "@ + e.text(),
            RefusalView::OwnId(e) => "本机身份异常: "@ + e.text(),
            RefusalView::Myself => "二维码里的用户就是本机账户，不能添加自己"@,
            RefusalView::NotInvite => "这是“开始聊天”链接，不是加好友链接"@,
        }
    }
}

impl LinkRefusal {
    pub fn message(&self) -> (r: String)
        ensures
            r@ == self@.text(),
    {
        match self {
            LinkRefusal::Invalid(e) => {
                let mut s = "链接无效: ".to_owned();
                s.append(&e.message());
                s
            },
            LinkRefusal::OwnId(e) => {
                let mut s = "本机身份异常: ".to_owned();
                s.append(&e.message());
                s
            },
            LinkRefusal::Myself => "二维码里的用户就是本机账户，不能添加自己".to_owned(),
            LinkRefusal::NotInvite => "这是“开始聊天”链接，不是加好友链接".to_owned(),
        }
    }
}

/// What a link does to the friend list: the new list, or why it is refused.
/// A link about a friend changes nothing.
pub open spec fn link_added(
    book: Seq<FriendView>,
    own_id: Seq<char>,
    url: Seq<char>,
) -> Result<Seq<FriendView>, RefusalView> {
    match invite_of(url) {
        Err(e) => Err(RefusalView::Invalid(e)),
        Ok(invite) => match id_of_text(own_id) {
            Err(e) => Err(RefusalView::OwnId(e)),
            Ok(own) => if invite.key() == own {
                Err(RefusalView::Myself)
            } else if has_friend(book, invite.key()) {
                Ok(book)
            } else {
                match invite {
                    InviteView::Add { nickname, pubkey, ip } => Ok(
                        befriended(book, nickname, pubkey, ip),
                    ),
                    InviteView::Talk { .. } => Err(RefusalView::NotInvite),
                }
            },
        },
    }
}

// ---------- changes that are confirmed ----------

/// A change of the key that was confirmed.
pub enum KeyChange {
    /// A new key is to be made.
    Regenerate,
    /// The key of the seed that was typed in is to be taken over.
    Seed(String),
}

/// The contents of a [`KeyChange`].
#[verifier::ext_equal]
pub enum KeyChangeView {
    Regenerate,
    Seed(Seq<char>),
}

impl View for KeyChange {
    type V = KeyChangeView;

    open spec fn view(&self) -> KeyChangeView {
        match self {
            KeyChange::Regenerate => KeyChangeView::Regenerate,
            KeyChange::Seed(t) => KeyChangeView::Seed(t@),
        }
    }
}

/// The change of the key that waits to be confirmed.
pub open spec fn key_change(s: AppView) -> Option<KeyChangeView> {
    match s.confirm_key {
        Some(how) => if how == "regenerate"@ {
            Some(KeyChangeView::Regenerate)
        } else {
            Some(KeyChangeView::Seed(s.seed_input))
        },
        None => None,
    }
}

/// The state after the question about a nickname was answered: it changes only
/// where it was asked for and confirmed.
pub open spec fn nickname_answered(s: AppView, confirm: bool) -> AppView {
    if confirm && s.confirm_nick {
        AppView { confirm_nick: false, ..nickname_set(s, trimmed(s.nick_input)) }
    } else {
        AppView { confirm_nick: false, ..s }
    }
}

// ---------- avatars ----------

/// What tells one avatar from another.
pub open spec fn avatar_text(s: AppView, mtime: u64) -> Seq<char> {
    if s.avatar_feature {
        match s.avatar_path {
            Some(p) => "custom|"@ + p + "|"@ + decimal(mtime as nat),
            None => "custom_missing"@,
        }
    } else {
        "default"@
    }
}

impl App {
    /// Sets whether a message that fails makes the node ask common friends.
    pub fn set_auto_addr(&mut self, on: bool)
        ensures
            final(self)@ == acting(
                AppView { auto_addr: on, ..old(self)@ },
                ActionView::Configure(ChangeView::AutoAddressing(on)),
            ),
    {
        let ghost s = self@;
        self.auto_addr = on;
        assert(self@ =~= AppView { auto_addr: on, ..s });
        self.act(Action::Configure(ConfigChange::AutoAddressing(on)));
    }

    /// Sets a feature together with those that it needs or that need it.
    pub fn set_feature(&mut self, feature: u8, on: bool)
        ensures
            final(self)@ == feature_set(old(self)@, feature, on),
    {
        let ghost s = self@;
        let f = set_features(
            Features {
                avatar: self.avatar_feature,
                media: self.media_feature,
                file: self.file_feature,
            },
            feature,
            on,
        );
        self.avatar_feature = f.avatar;
        self.media_feature = f.media;
        self.file_feature = f.file;
        self.act(
            Action::Configure(
                ConfigChange::Features { avatar: f.avatar, media: f.media, file: f.file },
            ),
        );
        assert(self@ =~= feature_set(s, feature, on));
    }

    /// Sets where the avatar lies; `None` is the default one.
    pub fn set_avatar_path(&mut self, path: Option<String>)
        ensures
            final(self)@ == avatar_set(old(self)@, opt_text(path)),
    {
        let ghost s = self@;
        let ghost p = opt_text(path);
        self.avatar_path = clone_opt(&path);
        assert(self@ =~= AppView { avatar_path: p, ..s });
        self.act(Action::Configure(ConfigChange::AvatarPath(path)));
    }

    /// Takes over an image that was copied to a path; `None` where it could
    /// not be copied.
    pub fn set_avatar_from(&mut self, copied: Option<String>)
        ensures
            final(self)@ == match opt_text(copied) {
                Some(p) => shown(avatar_set(old(self)@, Some(p)), "头像已更新"@),
                None => shown(old(self)@, "头像保存失败"@),
            },
    {
        match copied {
            Some(p) => {
                self.set_avatar_path(Some(p));
                self.push_status("头像已更新".to_owned());
            },
            None => {
                self.push_status("头像保存失败".to_owned());
            },
        }
    }

    /// Sets our nickname. Blanks around it do not count, and a blank one is
    /// not taken.
    pub fn set_nickname(&mut self, name: &str)
        ensures
            final(self)@ == nickname_set(old(self)@, trimmed(name@)),
    {
        let ghost s = self@;
        let name = name.trim();
        if name.is_empty() {
            return;
        }
        let ghost n = name@;
        self.own_nickname = name.to_owned();
        self.nick_input = name.to_owned();
        assert(self@ =~= AppView { own_nickname: n, nick_input: n, ..s });
        self.act(Action::Configure(ConfigChange::Nickname(name.to_owned())));
        let mut line = "昵称已更新为：".to_owned();
        line.append(name);
        self.push_status(line);
    }

    /// Asks whether the nickname is to be changed to what was typed in.
    pub fn ask_nickname(&mut self)
        ensures
            final(self)@ == (AppView { confirm_nick: true, ..old(self)@ }),
    {
        self.confirm_nick = true;
    }

    /// Takes the answer to that question.
    pub fn answer_nick_dialog(&mut self, confirm: bool)
        ensures
            final(self)@ == nickname_answered(old(self)@, confirm),
            !final(self)@.confirm_nick,
            !confirm ==> final(self)@.own_nickname == old(self)@.own_nickname,
    {
        if confirm && self.confirm_nick {
            let name = self.nick_input.clone();
            self.set_nickname(&name);
        }
        self.confirm_nick = false;
    }

    /// Asks whether the key is to be changed: to that of a seed that is typed
    /// in, or to a new one.
    pub fn ask_key_change(&mut self, manual: bool)
        ensures
            final(self)@ == (AppView {
                confirm_key: Some(
                    if manual {
                        "manual"@
                    } else {
                        "regenerate"@
                    },
                ),
                ..old(self)@
            }),
    {
        let how = if manual {
            "manual".to_owned()
        } else {
            "regenerate".to_owned()
        };
        self.confirm_key = Some(how);
    }

    /// Takes the answer to that question, and gives the change that is to be
    /// made. The question is closed and the seed forgotten either way.
    pub fn answer_key_dialog(&mut self, confirm: bool) -> (r: Option<KeyChange>)
        ensures
            final(self)@ == (AppView {
                confirm_key: None,
                seed_input: Seq::empty(),
                ..old(self)@
            }),
            r is Some <==> confirm && old(self)@.confirm_key is Some,
            r matches Some(k) ==> key_change(old(self)@) == Some(k@),
            r matches Some(KeyChange::Regenerate) ==> old(self)@.confirm_key == Some(
                "regenerate"@,
            ),
            r matches Some(KeyChange::Seed(t)) ==> t@ == old(self)@.seed_input
                && old(self)@.confirm_key != Some("regenerate"@),
    {
        let ghost s = self@;
        let mut change: Option<KeyChange> = None;
        if confirm {
            match &self.confirm_key {
                Some(how) => {
                    if same_text(how, "regenerate") {
                        change = Some(KeyChange::Regenerate);
                    } else {
                        change = Some(KeyChange::Seed(self.seed_input.clone()));
                    }
                },
                None => {},
            }
        }
        self.confirm_key = None;
        self.seed_input = String::new();
        assert(self@ =~= AppView { confirm_key: None, seed_input: Seq::empty(), ..s });
        change
    }

    fn show_identity(&mut self, identity: &Identity, line: String)
        ensures
            final(self)@ == identity_set(
                old(self)@,
                identity.ed_pub@,
                identity.seed@,
                line@,
            ),
    {
        let ghost s = self@;
        self.own_short = id::short(&identity.ed_pub);
        self.own_id = identity.user_id();
        self.seed_hex = identity.seed_hex();
        assert(self@ =~= AppView {
            own_short: short_text(identity.ed_pub@),
            own_id: hex_text(identity.ed_pub@),
            seed_hex: hex_text(identity.seed@),
            ..s
        });
        self.push_status(line);
    }

    /// Makes a new identity, which is to be stored and is used from the next
    /// start on.
    pub fn regenerate_key(&mut self) -> (r: Identity)
        ensures
            r.wf(),
            final(self)@ == identity_set(
                old(self)@,
                r.ed_pub@,
                r.seed@,
                "身份密钥已重新生成（重启后生效）。好友需重新添加你的新 ID。"@,
            ),
    {
        let identity = Identity::generate();
        self.show_identity(
            &identity,
            "身份密钥已重新生成（重启后生效）。好友需重新添加你的新 ID。".to_owned(),
        );
        identity
    }

    /// Shows an identity that was typed in and has been stored.
    pub fn set_seed(&mut self, identity: &Identity)
        ensures
            final(self)@ == identity_set(
                old(self)@,
                identity.ed_pub@,
                identity.seed@,
                "身份密钥已更新（重启后生效）。"@,
            ),
    {
        self.show_identity(identity, "身份密钥已更新（重启后生效）。".to_owned());
    }

    /// The link that invites to add us; empty where our user ID is none.
    pub fn invite_link(&self, cfg: &Config) -> (r: String)
        ensures
            r@ == match id_of_text(self@.own_id) {
                Ok(pk) => invite_text(cfg.nickname@, pk, seq![self@.local_ip]),
                Err(_) => Seq::empty(),
            },
    {
        match id::decode(&self.own_id) {
            Ok(pk) => {
                let mut ips: Vec<String> = Vec::new();
                ips.push(self.local_ip.clone());
                assert(texts(ips@) =~= seq![self@.local_ip]);
                build_invite(cfg, pk, &ips)
            },
            Err(_) => String::new(),
        }
    }

    /// Adds the friend that a link invites to add.
    pub fn add_friend_from_link(&mut self, url: &str, friends: &mut FriendStore) -> (r: Result<
        (),
        LinkRefusal,
    >)
        ensures
            match link_added(old(friends)@, old(self)@.own_id, url@) {
                Err(e) => {
                    &&& r matches Err(x) && x@ == e
                    &&& final(friends)@ == old(friends)@
                    &&& final(self)@ == old(self)@
                },
                Ok(book) => {
                    &&& r is Ok
                    &&& final(friends)@ == book
                    &&& final(self)@ == if book == old(friends)@ {
                        old(self)@
                    } else {
                        shown(old(self)@, "已通过扫码添加好友"@)
                    }
                },
            },
            final(friends)@ != old(friends)@ ==> final(friends).unsaved,
    {
        let invite = match parse_url(url) {
            Ok(i) => i,
            Err(e) => {
                return Err(LinkRefusal::Invalid(e));
            },
        };
        let pk = invite.pubkey();
        let own = match id::decode(&self.own_id) {
            Ok(k) => k,
            Err(e) => {
                return Err(LinkRefusal::OwnId(e));
            },
        };
        if same_array(&pk, &own) {
            return Err(LinkRefusal::Myself);
        }
        if friends.contains(&pk) {
            return Ok(());
        }
        match invite {
            Invite::Add { nickname, pubkey, ip } => {
                let ghost before = friends@;
                let _ = friends.add(nickname, pubkey, ip);
                assert(friends@.len() == before.len() + 1);
                self.push_status("已通过扫码添加好友".to_owned());
                Ok(())
            },
            Invite::Talk { .. } => Err(LinkRefusal::NotInvite),
        }
    }

    /// What tells one avatar from another, so that it is loaded again when it
    /// changes; `mtime` is when its file was last changed, in seconds.
    pub fn avatar_signature(&self, mtime: u64) -> (r: String)
        ensures
            r@ == avatar_text(self@, mtime),
    {
        if self.avatar_feature {
            match &self.avatar_path {
                Some(p) => {
                    let mut s = "custom|".to_owned();
                    s.append(p);
                    s.append("|");
                    push_decimal(&mut s, mtime);
                    s
                },
                None => "custom_missing".to_owned(),
            }
        } else {
            "default".to_owned()
        }
    }

    /// Where our own avatar lies; `present` is whether there is a file.
    pub fn custom_avatar(&self, present: bool) -> (r: Option<String>)
        ensures
            opt_text(r) == if self@.avatar_feature && present {
                self@.avatar_path
            } else {
                None
            },
    {
        if self.avatar_feature && present {
            clone_opt(&self.avatar_path)
        } else {
            None
        }
    }
}

/// The state after the avatar was set.
pub open spec fn avatar_set(s: AppView, path: Option<Seq<char>>) -> AppView {
    acting(
        AppView { avatar_path: path, ..s },
        ActionView::Configure(ChangeView::AvatarPath(path)),
    )
}

/// The state after our nickname was set.
pub open spec fn nickname_set(s: AppView, name: Seq<char>) -> AppView {
    if name.len() == 0 {
        s
    } else {
        shown(
            acting(
                AppView { own_nickname: name, nick_input: name, ..s },
                ActionView::Configure(ChangeView::Nickname(name)),
            ),
            "昵称已更新为："@ + name,
        )
    }
}

} // verus!
