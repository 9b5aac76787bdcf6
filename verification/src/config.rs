//! The configuration and what may be changed in it.
//!
//! The default port is Kokona's birthday, the twelfth of December.

use vstd::prelude::*;

use crate::net::ip::{format_ip, ip4_text, IpAddr, IpView};
use crate::net::socket::{is_public_v4, public_v4};
use crate::store::friends::{parse_ip, text_ip};
use crate::text::{clone_opt, opt_text, trimmed};

verus! {

/// The UDP port that a node listens on by default.
pub const DEFAULT_PORT: u16 = 1212;

pub struct Config {
    /// The UDP port that is listened on.
    pub port: u16,
    /// Whether a message that fails makes the node ask common friends for the
    /// address.
    pub auto_addressing: bool,
    pub nickname: String,
    /// A public IPv4 address that does not change.
    pub public_ipv4: Option<String>,
    /// Whether avatars are used; without them the default one is shown.
    pub avatar_feature: bool,
    /// Whether images and videos can be sent.
    pub media_feature: bool,
    /// Whether any file can be sent.
    pub file_feature: bool,
    /// Where the avatar lies; `None` is the default one.
    pub avatar_path: Option<String>,
    /// Whether large attachments are sent without a warning.
    pub no_warn_large_attach: bool,
}

/// The contents of a [`Config`].
#[verifier::ext_equal]
pub struct ConfigView {
    pub port: u16,
    pub auto_addressing: bool,
    pub nickname: Seq<char>,
    pub public_ipv4: Option<Seq<char>>,
    pub avatar_feature: bool,
    pub media_feature: bool,
    pub file_feature: bool,
    pub avatar_path: Option<Seq<char>>,
    pub no_warn_large_attach: bool,
}

impl View for Config {
    type V = ConfigView;

    open spec fn view(&self) -> ConfigView {
        ConfigView {
            port: self.port,
            auto_addressing: self.auto_addressing,
            nickname: self.nickname@,
            public_ipv4: opt_text(self.public_ipv4),
            avatar_feature: self.avatar_feature,
            media_feature: self.media_feature,
            file_feature: self.file_feature,
            avatar_path: opt_text(self.avatar_path),
            no_warn_large_attach: self.no_warn_large_attach,
        }
    }
}

impl Clone for Config {
    fn clone(&self) -> (r: Self)
        ensures
            r@ == self@,
    {
        Config {
            port: self.port,
            auto_addressing: self.auto_addressing,
            nickname: self.nickname.clone(),
            public_ipv4: clone_opt(&self.public_ipv4),
            avatar_feature: self.avatar_feature,
            media_feature: self.media_feature,
            file_feature: self.file_feature,
            avatar_path: clone_opt(&self.avatar_path),
            no_warn_large_attach: self.no_warn_large_attach,
        }
    }
}

/// What a feature is set to where a configuration file does not say.
pub fn default_true() -> (r: bool)
    ensures
        r,
{
    true
}

/// The configuration of a new user.
pub open spec fn default_config() -> ConfigView {
    ConfigView {
        port: DEFAULT_PORT,
        auto_addressing: false,
        nickname: "kokona"@,
        public_ipv4: None,
        avatar_feature: true,
        media_feature: true,
        file_feature: false,
        avatar_path: None,
        no_warn_large_attach: false,
    }
}

impl Default for Config {
    fn default() -> (r: Self)
        ensures
            r@ == default_config(),
    {
        Config {
            port: DEFAULT_PORT,
            auto_addressing: false,
            nickname: "kokona".to_owned(),
            public_ipv4: None,
            avatar_feature: true,
            media_feature: true,
            file_feature: false,
            avatar_path: None,
            no_warn_large_attach: false,
        }
    }
}

// ---------- changes ----------

/// A setting with its new value.
pub enum ConfigChange {
    AutoAddressing(bool),
    Features { avatar: bool, media: bool, file: bool },
    AvatarPath(Option<String>),
    NoWarnLarge(bool),
    Nickname(String),
    PublicIpv4(Option<String>),
}

/// The contents of a [`ConfigChange`].
#[verifier::ext_equal]
pub enum ChangeView {
    AutoAddressing(bool),
    Features { avatar: bool, media: bool, file: bool },
    AvatarPath(Option<Seq<char>>),
    NoWarnLarge(bool),
    Nickname(Seq<char>),
    PublicIpv4(Option<Seq<char>>),
}

impl View for ConfigChange {
    type V = ChangeView;

    open spec fn view(&self) -> ChangeView {
        match self {
            ConfigChange::AutoAddressing(on) => ChangeView::AutoAddressing(*on),
            ConfigChange::Features { avatar, media, file } => ChangeView::Features {
                avatar: *avatar,
                media: *media,
                file: *file,
            },
            ConfigChange::AvatarPath(p) => ChangeView::AvatarPath(opt_text(*p)),
            ConfigChange::NoWarnLarge(on) => ChangeView::NoWarnLarge(*on),
            ConfigChange::Nickname(s) => ChangeView::Nickname(s@),
            ConfigChange::PublicIpv4(ip) => ChangeView::PublicIpv4(opt_text(*ip)),
        }
    }
}

/// The configuration after a change.
pub open spec fn changed(c: ConfigView, change: ChangeView) -> ConfigView {
    match change {
        ChangeView::AutoAddressing(on) => ConfigView { auto_addressing: on, ..c },
        ChangeView::Features { avatar, media, file } => ConfigView {
            avatar_feature: avatar,
            media_feature: media,
            file_feature: file,
            ..c
        },
        ChangeView::AvatarPath(p) => ConfigView { avatar_path: p, ..c },
        ChangeView::NoWarnLarge(on) => ConfigView { no_warn_large_attach: on, ..c },
        ChangeView::Nickname(s) => ConfigView { nickname: s, ..c },
        ChangeView::PublicIpv4(ip) => ConfigView { public_ipv4: ip, ..c },
    }
}

impl Config {
    /// Sets one setting; the others stay as they are.
    pub fn apply(&mut self, change: ConfigChange)
        ensures
            final(self)@ == changed(old(self)@, change@),
    {
        match change {
            ConfigChange::AutoAddressing(on) => {
                self.auto_addressing = on;
            },
            ConfigChange::Features { avatar, media, file } => {
                self.avatar_feature = avatar;
                self.media_feature = media;
                self.file_feature = file;
            },
            ConfigChange::AvatarPath(p) => {
                self.avatar_path = p;
            },
            ConfigChange::NoWarnLarge(on) => {
                self.no_warn_large_attach = on;
            },
            ConfigChange::Nickname(s) => {
                self.nickname = s;
            },
            ConfigChange::PublicIpv4(ip) => {
                self.public_ipv4 = ip;
            },
        }
        assert(self@ =~= changed(old(self)@, change@));
    }
}

/// A change sets just its own setting: the others stay as they are, and a
/// change of another setting leaves it alone.
pub proof fn law_changes(c: ConfigView, a: ChangeView)
    ensures
        ({
            let r = changed(c, a);
            &&& r.port == c.port
            &&& r.auto_addressing == if a is AutoAddressing {
                a->AutoAddressing_0
            } else {
                c.auto_addressing
            }
            &&& r.nickname == if a is Nickname {
                a->Nickname_0
            } else {
                c.nickname
            }
            &&& r.public_ipv4 == if a is PublicIpv4 {
                a->PublicIpv4_0
            } else {
                c.public_ipv4
            }
            &&& r.avatar_path == if a is AvatarPath {
                a->AvatarPath_0
            } else {
                c.avatar_path
            }
            &&& r.no_warn_large_attach == if a is NoWarnLarge {
                a->NoWarnLarge_0
            } else {
                c.no_warn_large_attach
            }
            &&& (a is Features ==> r.avatar_feature == a->avatar && r.media_feature == a->media
                && r.file_feature == a->file)
            &&& (!(a is Features) ==> r.avatar_feature == c.avatar_feature && r.media_feature
                == c.media_feature && r.file_feature == c.file_feature)
        }),
{
}

// ---------- the stable public address ----------

/// Why a text cannot be the stable public address.
#[derive(Debug)]
pub enum PublicIpError {
    /// The text is no address.
    Unreadable(String),
    /// The address is an IPv6 address.
    NotV4(String),
    /// The address is 0.0.0.0.
    Unspecified,
    /// The address is not public.
    NotPublic([u8; 4]),
}

impl PublicIpError {
    pub open spec fn text(self) -> Seq<char> {
        match self {
            PublicIpError::Unreadable(s) => "无法解析 IPv4 地址: "@ + s@,
            PublicIpError::NotV4(s) => "公网 IPv4 必须是 IPv4 地址: "@ + s@,
            PublicIpError::Unspecified => "地址不能是 0.0.0.0"@,
            PublicIpError::NotPublic(o) => ip4_text(o@)
                + " 不是公网 IPv4（回环/内网/保留地址不能作为稳定地址）"@,
        }
    }

    pub fn message(&self) -> (r: String)
        ensures
            r@ == self.text(),
    {
        match self {
            PublicIpError::Unreadable(s) => {
                let mut r = "无法解析 IPv4 地址: ".to_owned();
                r.append(s);
                r
            },
            PublicIpError::NotV4(s) => {
                let mut r = "公网 IPv4 必须是 IPv4 地址: ".to_owned();
                r.append(s);
                r
            },
            PublicIpError::Unspecified => "地址不能是 0.0.0.0".to_owned(),
            PublicIpError::NotPublic(o) => {
                let mut r = format_ip(&IpAddr::V4(*o));
                r.append(" 不是公网 IPv4（回环/内网/保留地址不能作为稳定地址）");
                r
            },
        }
    }
}

/// `0.0.0.0`
pub open spec fn is_unspecified(o: Seq<u8>) -> bool {
    o[0] == 0 && o[1] == 0 && o[2] == 0 && o[3] == 0
}

/// The stable public address in a text, which may carry a port; the port is
/// not kept.
pub fn normalize_public_ipv4(s: &str) -> (r: Result<String, PublicIpError>)
    ensures
        match text_ip(trimmed(s@)) {
            None => r matches Err(PublicIpError::Unreadable(t)) && t@ == s@,
            Some(IpView::V6(_)) => r matches Err(PublicIpError::NotV4(t)) && t@ == s@,
            Some(IpView::V4(o)) => if is_unspecified(o) {
                r matches Err(PublicIpError::Unspecified)
            } else if !public_v4(o) {
                r matches Err(PublicIpError::NotPublic(a)) && a@ == o
            } else {
                r matches Ok(t) && t@ == ip4_text(o)
            },
        },
{
    match parse_ip(s.trim()) {
        None => Err(PublicIpError::Unreadable(s.to_owned())),
        Some(IpAddr::V6(_)) => Err(PublicIpError::NotV4(s.to_owned())),
        Some(IpAddr::V4(o)) => if o[0] == 0 && o[1] == 0 && o[2] == 0 && o[3] == 0 {
            Err(PublicIpError::Unspecified)
        } else if !is_public_v4(o) {
            Err(PublicIpError::NotPublic(o))
        } else {
            Ok(format_ip(&IpAddr::V4(o)))
        },
    }
}

} // verus!
