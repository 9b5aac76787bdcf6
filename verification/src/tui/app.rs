//! The state that the terminal and the graphical interface share: friends,
//! conversations, input and settings.
//!
//! A step changes the state and appends to a list of actions, which are
//! carried out outside.

use vstd::prelude::*;

use crate::bytes::copy_of;
use crate::config::{ChangeView, Config, ConfigChange, ConfigView};
use crate::crypto::primitives::random_bytes;
use crate::net::event::{CommandView, NetCommand};
use crate::store::friends::{friend_views, Friend, FriendStore, FriendView};
use crate::table::{has_key, lemma_key_index, lookup, put, Table};
use crate::text::{clone_opt, opt_text, texts};

verus! {

/// An attachment that is an image.
pub const ATTACH_IMAGE: u8 = 1;

/// An attachment that is a video.
pub const ATTACH_VIDEO: u8 = 2;

/// An attachment that is any file.
pub const ATTACH_FILE: u8 = 3;

/// How many status lines are kept.
pub const MAX_STATUS: usize = 20;

/// The selection while no conversation is open.
pub const NO_FRIEND: usize = usize::MAX;

// ---------- messages ----------

/// Which way a message went.
#[derive(Clone, Copy, Debug, PartialEq, Eq, Structural)]
pub enum Dir {
    In,
    Out,
}

/// What became of a message.
#[derive(Clone, Copy, Debug, PartialEq, Eq, Structural)]
pub enum MsgStatus {
    Sending,
    Sent,
    Failed,
}

/// What a message holds besides its text.
pub enum MsgKind {
    Text,
    /// The bytes of an image.
    Image(Vec<u8>),
    /// The name and the bytes of a video.
    Video(String, Vec<u8>),
    /// The name and the bytes of a file.
    File(String, Vec<u8>),
}

/// The contents of a [`MsgKind`].
#[verifier::ext_equal]
pub enum KindView {
    Text,
    Image(Seq<u8>),
    Video(Seq<char>, Seq<u8>),
    File(Seq<char>, Seq<u8>),
}

impl View for MsgKind {
    type V = KindView;

    open spec fn view(&self) -> KindView {
        match self {
            MsgKind::Text => KindView::Text,
            MsgKind::Image(data) => KindView::Image(data@),
            MsgKind::Video(name, data) => KindView::Video(name@, data@),
            MsgKind::File(name, data) => KindView::File(name@, data@),
        }
    }
}

impl Clone for MsgKind {
    fn clone(&self) -> (r: Self)
        ensures
            r@ == self@,
    {
        match self {
            MsgKind::Text => MsgKind::Text,
            MsgKind::Image(data) => MsgKind::Image(copy_of(data)),
            MsgKind::Video(name, data) => MsgKind::Video(name.clone(), copy_of(data)),
            MsgKind::File(name, data) => MsgKind::File(name.clone(), copy_of(data)),
        }
    }
}

/// How an attachment is shown: an image without its name, what is neither an
/// image nor a video as a file.
pub open spec fn attach_kind(kind: u8, name: Seq<char>, data: Seq<u8>) -> KindView {
    if kind == ATTACH_IMAGE {
        KindView::Image(data)
    } else if kind == ATTACH_VIDEO {
        KindView::Video(name, data)
    } else {
        KindView::File(name, data)
    }
}

/// How an attachment is shown.
pub fn kind_of_attach(kind: u8, name: &str, data: Vec<u8>) -> (r: MsgKind)
    ensures
        r@ == attach_kind(kind, name@, data@),
{
    if kind == ATTACH_IMAGE {
        MsgKind::Image(data)
    } else if kind == ATTACH_VIDEO {
        MsgKind::Video(name.to_owned(), data)
    } else {
        MsgKind::File(name.to_owned(), data)
    }
}

/// A message of a conversation.
pub struct UiMsg {
    pub dir: Dir,
    pub text: String,
    pub status: MsgStatus,
    pub seq: u32,
    pub ts: u64,
    pub kind: MsgKind,
    /// The transfer of an attachment that was sent.
    pub transfer: Option<[u8; 16]>,
}

/// The contents of a [`UiMsg`].
#[verifier::ext_equal]
pub struct UiMsgView {
    pub dir: Dir,
    pub text: Seq<char>,
    pub status: MsgStatus,
    pub seq: u32,
    pub ts: u64,
    pub kind: KindView,
    pub transfer: Option<Seq<u8>>,
}

/// The contents of an optional transfer.
pub open spec fn transfer_view(t: Option<[u8; 16]>) -> Option<Seq<u8>> {
    match t {
        Some(a) => Some(a@),
        None => None,
    }
}

impl View for UiMsg {
    type V = UiMsgView;

    open spec fn view(&self) -> UiMsgView {
        UiMsgView {
            dir: self.dir,
            text: self.text@,
            status: self.status,
            seq: self.seq,
            ts: self.ts,
            kind: self.kind@,
            transfer: transfer_view(self.transfer),
        }
    }
}

impl Clone for UiMsg {
    fn clone(&self) -> (r: Self)
        ensures
            r@ == self@,
    {
        UiMsg {
            dir: self.dir,
            text: self.text.clone(),
            status: self.status,
            seq: self.seq,
            ts: self.ts,
            kind: self.kind.clone(),
            transfer: self.transfer,
        }
    }
}

/// The contents of a list of messages.
pub open spec fn msg_views(v: Seq<UiMsg>) -> Seq<UiMsgView> {
    Seq::new(v.len(), |i: int| v[i]@)
}

/// The messages of a conversation.
pub struct MsgList {
    pub items: Vec<UiMsg>,
}

impl View for MsgList {
    type V = Seq<UiMsgView>;

    open spec fn view(&self) -> Seq<UiMsgView> {
        msg_views(self.items@)
    }
}

/// The conversations, by user ID.
pub type Talks = Seq<(Seq<char>, Seq<UiMsgView>)>;

/// The messages of a conversation, none where there is no entry.
pub open spec fn msgs_of(talks: Talks, key: Seq<char>) -> Seq<UiMsgView> {
    match lookup(talks, key) {
        Some(v) => v,
        None => Seq::empty(),
    }
}

/// The conversations with one more message.
pub open spec fn with_msg(talks: Talks, key: Seq<char>, m: UiMsgView) -> Talks {
    put(talks, key, msgs_of(talks, key).push(m))
}

/// Appends a message to a conversation, which is opened where it is not
/// there.
pub fn add_msg(msgs: &mut Table<String, MsgList>, key: &String, m: UiMsg)
    ensures
        final(msgs)@ == with_msg(old(msgs)@, key@, m@),
{
    let ghost talks = msgs@;
    let ghost mv = m@;
    proof {
        lemma_key_index(talks, key@);
    }
    let i: usize = msgs.find(key);
    if i < msgs.len() {
        let list = msgs.value_mut(i);
        let ghost before = list@;
        list.items.push(m);
        assert(list@ =~= before.push(mv));
        assert(msgs@ =~= with_msg(talks, key@, mv));
    } else {
        let mut items: Vec<UiMsg> = Vec::new();
        items.push(m);
        let list = MsgList { items };
        assert(list@ =~= Seq::<UiMsgView>::empty().push(mv));
        msgs.insert(key.clone(), list);
    }
}

/// The number of the next message to someone: zero for the first one.
pub open spec fn next_number(numbers: Seq<(Seq<char>, u32)>, key: Seq<char>) -> u32 {
    match lookup(numbers, key) {
        Some(n) => if n == u32::MAX {
            0
        } else {
            (n + 1) as u32
        },
        None => 0,
    }
}

/// Takes the number of the next message to someone.
pub fn take_number(numbers: &mut Table<String, u32>, key: &String) -> (r: u32)
    ensures
        r == next_number(old(numbers)@, key@),
        final(numbers)@ == put(old(numbers)@, key@, r),
{
    let n: u32 = match numbers.get(key) {
        Some(n) => n.wrapping_add(1),
        None => 0,
    };
    numbers.insert(key.clone(), n);
    n
}

/// An attachment that was picked and not sent yet.
pub struct AttachDraft {
    pub kind: u8,
    pub path: String,
    pub name: String,
    pub size: u64,
}

/// The contents of an [`AttachDraft`].
#[verifier::ext_equal]
pub struct DraftView {
    pub kind: u8,
    pub path: Seq<char>,
    pub name: Seq<char>,
    pub size: u64,
}

impl View for AttachDraft {
    type V = DraftView;

    open spec fn view(&self) -> DraftView {
        DraftView { kind: self.kind, path: self.path@, name: self.name@, size: self.size }
    }
}

impl Clone for AttachDraft {
    fn clone(&self) -> (r: Self)
        ensures
            r@ == self@,
    {
        AttachDraft {
            kind: self.kind,
            path: self.path.clone(),
            name: self.name.clone(),
            size: self.size,
        }
    }
}

/// The contents of an optional draft.
pub open spec fn draft_view(d: Option<AttachDraft>) -> Option<DraftView> {
    match d {
        Some(x) => Some(x@),
        None => None,
    }
}

/// The answer to the warning about a large attachment.
#[derive(Clone, Copy, Debug, PartialEq, Eq, Structural)]
pub enum WarnChoice {
    Cancel,
    Confirm,
    /// Send it, and do not warn again.
    ConfirmNoMore,
}

/// A random transfer ID.
pub fn random_id16() -> (r: [u8; 16]) {
    random_bytes::<16>()
}

// ---------- actions ----------

/// Something to be done outside.
pub enum Action {
    /// Hand a command to the network layer.
    Net(NetCommand),
    /// Append a line to the message file.
    Log { ts: u64, text: String },
    /// Change the configuration file.
    Configure(ConfigChange),
}

/// The contents of an [`Action`].
#[verifier::ext_equal]
pub enum ActionView {
    Net(CommandView),
    Log { ts: u64, text: Seq<char> },
    Configure(ChangeView),
}

impl View for Action {
    type V = ActionView;

    open spec fn view(&self) -> ActionView {
        match self {
            Action::Net(c) => ActionView::Net(c@),
            Action::Log { ts, text } => ActionView::Log { ts: *ts, text: text@ },
            Action::Configure(c) => ActionView::Configure(c@),
        }
    }
}

/// The contents of a list of actions.
pub open spec fn action_views(v: Seq<Action>) -> Seq<ActionView> {
    Seq::new(v.len(), |i: int| v[i]@)
}

// ---------- the state ----------

pub struct App {
    pub friends: Vec<Friend>,
    /// Index of the friend whose conversation is open.
    pub selected: usize,
    pub msgs: Table<String, MsgList>,
    /// The number of the last message to each friend.
    pub next_seq: Table<String, u32>,
    pub input: String,
    pub status: Vec<String>,
    pub quit: bool,
    pub own_short: String,
    pub own_id: String,
    pub seed_hex: String,
    pub local_ip: String,
    pub own_nickname: String,
    pub auto_addr: bool,
    pub show_help: bool,
    /// Whether the profile page is open.
    pub show_profile: bool,
    /// A change of the key that waits to be confirmed.
    pub confirm_key: Option<String>,
    /// Whether a change of the nickname waits to be confirmed.
    pub confirm_nick: bool,
    pub nick_input: String,
    pub seed_input: String,
    /// A large attachment that waits to be confirmed.
    pub warn_attach: Option<AttachDraft>,
    /// Whether the QR code is shown.
    pub show_qr: bool,
    /// Whether the dialog for scanning a QR code is shown.
    pub show_scan: bool,
    pub avatar_feature: bool,
    pub media_feature: bool,
    pub file_feature: bool,
    pub no_warn_large_attach: bool,
    pub avatar_path: Option<String>,
    /// What is still to be done outside.
    pub actions: Vec<Action>,
}

/// The contents of an [`App`].
#[verifier::ext_equal]
pub struct AppView {
    pub friends: Seq<FriendView>,
    pub selected: usize,
    pub msgs: Talks,
    pub next_seq: Seq<(Seq<char>, u32)>,
    pub input: Seq<char>,
    pub status: Seq<Seq<char>>,
    pub quit: bool,
    pub own_short: Seq<char>,
    pub own_id: Seq<char>,
    pub seed_hex: Seq<char>,
    pub local_ip: Seq<char>,
    pub own_nickname: Seq<char>,
    pub auto_addr: bool,
    pub show_help: bool,
    pub show_profile: bool,
    pub confirm_key: Option<Seq<char>>,
    pub confirm_nick: bool,
    pub nick_input: Seq<char>,
    pub seed_input: Seq<char>,
    pub warn_attach: Option<DraftView>,
    pub show_qr: bool,
    pub show_scan: bool,
    pub avatar_feature: bool,
    pub media_feature: bool,
    pub file_feature: bool,
    pub no_warn_large_attach: bool,
    pub avatar_path: Option<Seq<char>>,
    pub actions: Seq<ActionView>,
}

impl View for App {
    type V = AppView;

    open spec fn view(&self) -> AppView {
        AppView {
            friends: friend_views(self.friends@),
            selected: self.selected,
            msgs: self.msgs@,
            next_seq: self.next_seq@,
            input: self.input@,
            status: texts(self.status@),
            quit: self.quit,
            own_short: self.own_short@,
            own_id: self.own_id@,
            seed_hex: self.seed_hex@,
            local_ip: self.local_ip@,
            own_nickname: self.own_nickname@,
            auto_addr: self.auto_addr,
            show_help: self.show_help,
            show_profile: self.show_profile,
            confirm_key: opt_text(self.confirm_key),
            confirm_nick: self.confirm_nick,
            nick_input: self.nick_input@,
            seed_input: self.seed_input@,
            warn_attach: draft_view(self.warn_attach),
            show_qr: self.show_qr,
            show_scan: self.show_scan,
            avatar_feature: self.avatar_feature,
            media_feature: self.media_feature,
            file_feature: self.file_feature,
            no_warn_large_attach: self.no_warn_large_attach,
            avatar_path: opt_text(self.avatar_path),
            actions: action_views(self.actions@),
        }
    }
}

/// An empty conversation with each friend.
pub open spec fn first_talks(fs: Seq<FriendView>) -> Talks
    decreases fs.len(),
{
    if fs.len() == 0 {
        Seq::empty()
    } else {
        let front = first_talks(fs.drop_last());
        if has_key(front, fs.last().pubkey) {
            front
        } else {
            front.push((fs.last().pubkey, Seq::empty()))
        }
    }
}

/// The state with a status line at its end; the oldest one goes where there
/// are too many.
pub open spec fn shown(s: AppView, line: Seq<char>) -> AppView {
    let all = s.status.push(line);
    AppView {
        status: if all.len() > MAX_STATUS {
            all.remove(0)
        } else {
            all
        },
        ..s
    }
}

/// The state with one more action.
pub open spec fn acting(s: AppView, a: ActionView) -> AppView {
    AppView { actions: s.actions.push(a), ..s }
}

/// The friend whose conversation is open.
pub open spec fn current_of(s: AppView) -> Option<FriendView> {
    if s.selected < s.friends.len() {
        Some(s.friends[s.selected as int])
    } else {
        None
    }
}

/// The state at the start.
pub open spec fn started(
    friends: Seq<FriendView>,
    cfg: ConfigView,
    own_short: Seq<char>,
    own_id: Seq<char>,
    seed_hex: Seq<char>,
    local_ip: Seq<char>,
) -> AppView {
    AppView {
        friends,
        selected: 0,
        msgs: first_talks(friends),
        next_seq: Seq::empty(),
        input: Seq::empty(),
        status: seq!["KokonaChat @ "@ + own_short],
        quit: false,
        own_short,
        own_id,
        seed_hex,
        local_ip,
        own_nickname: cfg.nickname,
        auto_addr: cfg.auto_addressing,
        show_help: true,
        show_profile: false,
        confirm_key: None,
        confirm_nick: false,
        nick_input: cfg.nickname,
        seed_input: Seq::empty(),
        warn_attach: None,
        show_qr: false,
        show_scan: false,
        avatar_feature: cfg.avatar_feature,
        media_feature: cfg.media_feature,
        file_feature: cfg.file_feature,
        no_warn_large_attach: cfg.no_warn_large_attach,
        avatar_path: cfg.avatar_path,
        actions: Seq::empty(),
    }
}

fn open_talks(friends: &Vec<Friend>) -> (r: Table<String, MsgList>)
    ensures
        r@ == first_talks(friend_views(friends@)),
{
    let ghost all = friend_views(friends@);
    let mut r: Table<String, MsgList> = Table::new();
    let mut i: usize = 0;
    while i < friends.len()
        invariant
            i <= friends@.len(),
            all == friend_views(friends@),
            r@ == first_talks(all.take(i as int)),
        decreases friends@.len() - i,
    {
        assert(all.take(i + 1).drop_last() =~= all.take(i as int));
        assert(all.take(i + 1).last() == friends@[i as int]@);
        if !r.contains(&friends[i].pubkey) {
            let list = MsgList { items: Vec::new() };
            assert(list@ =~= Seq::<UiMsgView>::empty());
            r.insert(friends[i].pubkey.clone(), list);
        }
        i = i + 1;
    }
    assert(all.take(i as int) =~= all);
    r
}

impl App {
    pub fn new(
        store: &FriendStore,
        cfg: &Config,
        own_short: String,
        own_id: String,
        seed_hex: String,
        local_ip: String,
    ) -> (r: Self)
        ensures
            r@ == started(store@, cfg@, own_short@, own_id@, seed_hex@, local_ip@),
    {
        let friends = store.list();
        let msgs = open_talks(&friends);
        let mut line = "KokonaChat @ ".to_owned();
        line.append(&own_short);
        let mut status: Vec<String> = Vec::new();
        status.push(line);
        let r = App {
            friends,
            selected: 0,
            msgs,
            next_seq: Table::new(),
            input: String::new(),
            status,
            quit: false,
            own_short,
            own_id,
            seed_hex,
            local_ip,
            own_nickname: cfg.nickname.clone(),
            auto_addr: cfg.auto_addressing,
            show_help: true,
            show_profile: false,
            confirm_key: None,
            confirm_nick: false,
            nick_input: cfg.nickname.clone(),
            seed_input: String::new(),
            warn_attach: None,
            show_qr: false,
            show_scan: false,
            avatar_feature: cfg.avatar_feature,
            media_feature: cfg.media_feature,
            file_feature: cfg.file_feature,
            no_warn_large_attach: cfg.no_warn_large_attach,
            avatar_path: clone_opt(&cfg.avatar_path),
            actions: Vec::new(),
        };
        assert(r@ =~= started(store@, cfg@, own_short@, own_id@, seed_hex@, local_ip@));
        r
    }

    /// The actions so far; the list is empty afterwards.
    pub fn take_actions(&mut self) -> (r: Vec<Action>)
        ensures
            action_views(r@) == old(self)@.actions,
            final(self)@ == (AppView { actions: Seq::empty(), ..old(self)@ }),
    {
        let ghost before = self@;
        let mut r: Vec<Action> = Vec::new();
        std::mem::swap(&mut r, &mut self.actions);
        assert(self@ =~= AppView { actions: Seq::empty(), ..before });
        r
    }

    /// Adds an action.
    pub fn act(&mut self, a: Action)
        ensures
            final(self)@ == acting(old(self)@, a@),
    {
        let ghost before = self@;
        let ghost av = a@;
        self.actions.push(a);
        assert(self@ =~= acting(before, av));
    }

    /// Adds a status line.
    pub fn push_status(&mut self, s: String)
        ensures
            final(self)@ == shown(old(self)@, s@),
    {
        let ghost before = self@;
        let ghost line = s@;
        self.status.push(s);
        assert(texts(self.status@) =~= before.status.push(line));
        if self.status.len() > MAX_STATUS {
            let ghost all = self.status@;
            let _ = self.status.remove(0);
            assert(texts(self.status@) =~= texts(all).remove(0));
        }
        assert(self@ =~= shown(before, line));
    }

    /// The friend whose conversation is open.
    pub fn current(&self) -> (r: Option<&Friend>)
        ensures
            match current_of(self@) {
                Some(f) => r matches Some(x) && x@ == f,
                None => r is None,
            },
    {
        if self.selected < self.friends.len() {
            Some(&self.friends[self.selected])
        } else {
            None
        }
    }

    /// The user ID of the friend whose conversation is open.
    pub fn current_pubkey(&self) -> (r: Option<String>)
        ensures
            match current_of(self@) {
                Some(f) => r matches Some(x) && x@ == f.pubkey,
                None => r is None,
            },
    {
        match self.current() {
            Some(f) => Some(f.pubkey.clone()),
            None => None,
        }
    }

    /// The messages of the open conversation.
    pub fn current_msgs(&self) -> (r: Vec<UiMsg>)
        ensures
            msg_views(r@) == match current_of(self@) {
                Some(f) => msgs_of(self@.msgs, f.pubkey),
                None => Seq::empty(),
            },
    {
        match self.current_pubkey() {
            Some(k) => match self.msgs.get(&k) {
                Some(list) => clone_msgs(&list.items),
                None => {
                    let r: Vec<UiMsg> = Vec::new();
                    assert(msg_views(r@) =~= Seq::<UiMsgView>::empty());
                    r
                },
            },
            None => {
                let r: Vec<UiMsg> = Vec::new();
                assert(msg_views(r@) =~= Seq::<UiMsgView>::empty());
                r
            },
        }
    }

    /// How many messages came in from someone.
    pub fn unread(&self, pubkey: &String) -> (r: usize)
        ensures
            r == incoming(msgs_of(self@.msgs, pubkey@)),
    {
        match self.msgs.get(pubkey) {
            Some(list) => count_incoming(&list.items),
            None => 0,
        }
    }

    /// Opens the conversation before the open one.
    pub fn select_prev(&mut self)
        ensures
            final(self)@ == selected_prev(old(self)@),
    {
        if self.selected > 0 {
            self.selected = self.selected - 1;
        }
        assert(self@ =~= selected_prev(old(self)@));
    }

    /// Opens the conversation after the open one.
    pub fn select_next(&mut self)
        ensures
            final(self)@ == selected_next(old(self)@),
    {
        if self.selected < self.friends.len() && self.selected + 1 < self.friends.len() {
            self.selected = self.selected + 1;
        }
        assert(self@ =~= selected_next(old(self)@));
    }

    /// Takes over the friend list after the network layer may have changed
    /// it. The selection stays within the list.
    pub fn refresh(&mut self, store: &FriendStore)
        ensures
            final(self)@ == refreshed(old(self)@, store@),
    {
        let friends = store.list();
        let selected: usize = clamp(self.selected, friends.len());
        self.friends = friends;
        self.selected = selected;
    }
}

/// How many messages came in.
pub open spec fn incoming(v: Seq<UiMsgView>) -> nat
    decreases v.len(),
{
    if v.len() == 0 {
        0
    } else {
        incoming(v.drop_last()) + if v.last().dir == Dir::In {
            1nat
        } else {
            0nat
        }
    }
}

fn count_incoming(v: &Vec<UiMsg>) -> (r: usize)
    ensures
        r == incoming(msg_views(v@)),
{
    let ghost all = msg_views(v@);
    let mut n: usize = 0;
    let mut i: usize = 0;
    while i < v.len()
        invariant
            i <= v@.len(),
            n <= i,
            all == msg_views(v@),
            n == incoming(all.take(i as int)),
        decreases v@.len() - i,
    {
        assert(all.take(i + 1).drop_last() =~= all.take(i as int));
        assert(all.take(i + 1).last() == v@[i as int]@);
        if v[i].dir == Dir::In {
            n = n + 1;
        }
        i = i + 1;
    }
    assert(all.take(i as int) =~= all);
    n
}

fn clone_msgs(v: &Vec<UiMsg>) -> (r: Vec<UiMsg>)
    ensures
        msg_views(r@) == msg_views(v@),
{
    let ghost all = msg_views(v@);
    let mut r: Vec<UiMsg> = Vec::new();
    let mut i: usize = 0;
    while i < v.len()
        invariant
            i <= v@.len(),
            all == msg_views(v@),
            msg_views(r@) =~= all.take(i as int),
        decreases v@.len() - i,
    {
        let ghost before = msg_views(r@);
        r.push(v[i].clone());
        assert(msg_views(r@) =~= before.push(v@[i as int]@));
        i = i + 1;
    }
    assert(all.take(i as int) =~= all);
    r
}

/// The state after the selection moved up.
pub open spec fn selected_prev(s: AppView) -> AppView {
    if s.selected > 0 {
        AppView { selected: (s.selected - 1) as usize, ..s }
    } else {
        s
    }
}

/// The state after the selection moved down.
pub open spec fn selected_next(s: AppView) -> AppView {
    if s.selected + 1 < s.friends.len() {
        AppView { selected: (s.selected + 1) as usize, ..s }
    } else {
        s
    }
}

/// A selection brought back within a list.
pub open spec fn clamped(selected: usize, n: nat) -> usize {
    if selected < n || selected == NO_FRIEND {
        selected
    } else if n == 0 {
        0
    } else {
        (n - 1) as usize
    }
}

fn clamp(selected: usize, n: usize) -> (r: usize)
    ensures
        r == clamped(selected, n as nat),
{
    if selected < n || selected == NO_FRIEND {
        selected
    } else if n == 0 {
        0
    } else {
        n - 1
    }
}

/// The state with a new friend list. The selection stays within it, unless no
/// conversation is open.
pub open spec fn refreshed(s: AppView, friends: Seq<FriendView>) -> AppView {
    AppView {
        friends,
        selected: clamped(s.selected, friends.len()),
        ..s
    }
}

/// However the friend list changes, a selection is of a friend again, unless
/// there are none or no conversation is open. The status stays short.
pub proof fn law_selection_and_status(s: AppView, friends: Seq<FriendView>, line: Seq<char>)
    ensures
        ({
            let r = refreshed(s, friends);
            r.selected < friends.len() || r.selected == NO_FRIEND || (friends.len() == 0
                && r.selected == 0)
        }),
        s.status.len() <= MAX_STATUS ==> shown(s, line).status.len() <= MAX_STATUS,
        shown(s, line).status.last() == line,
{
}

} // verus!
