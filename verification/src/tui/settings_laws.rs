//! What the settings and the keys of the chat window promise: every setting
//! is stored as it is shown, nothing that is asked about changes unless it is
//! confirmed, and a key does one thing.

use vstd::prelude::*;
use vstd::utf8::encode_utf8;

use crate::config::{changed, law_changes, ConfigView};
use crate::crypto::id::{
    hex_text, hex_value, id_of_text, law_id_round_trip, lemma_hex_text, IdError,
};
use crate::net::event::CommandView;
use crate::scan::lemma_decimal;
use crate::text::{decimal, is_white_space, trimmed};
use crate::text_laws::law_trimmed;
use crate::tui::app::{current_of, ActionView, AppView};
use crate::tui::events::{key_step, KeyCode, KeyPress};
use crate::tui::sending::{warnings_set, warns};
use crate::tui::settings::{
    avatar_set, avatar_text, feature_set, identity_set, key_change, nickname_answered, nickname_set,
    KeyChangeView,
};

verus! {

// ---------- settings ----------

/// Whether the settings of a file are those that the window shows.
pub open spec fn agrees(c: ConfigView, s: AppView) -> bool {
    &&& c.nickname == s.own_nickname
    &&& c.auto_addressing == s.auto_addr
    &&& c.avatar_feature == s.avatar_feature
    &&& c.media_feature == s.media_feature
    &&& c.file_feature == s.file_feature
    &&& c.avatar_path == s.avatar_path
    &&& c.no_warn_large_attach == s.no_warn_large_attach
}

/// Whether just one change is handed out, and the settings of a file that it is
/// made to are again those that the window shows.
pub open spec fn is_stored(c: ConfigView, s: AppView, r: AppView) -> bool {
    &&& r.actions.len() == s.actions.len() + 1
    &&& r.actions.drop_last() == s.actions
    &&& r.actions.last() is Configure
    &&& agrees(changed(c, r.actions.last()->Configure_0), r)
    &&& r.friends == s.friends && r.msgs == s.msgs && r.next_seq == s.next_seq && r.input == s.input
}

/// Whatever setting is made in the window is stored, and what is stored is what
/// the window shows.
pub proof fn law_settings_are_stored(
    c: ConfigView,
    s: AppView,
    feature: u8,
    on: bool,
    path: Option<Seq<char>>,
    name: Seq<char>,
)
    requires
        agrees(c, s),
    ensures
        is_stored(c, s, feature_set(s, feature, on)),
        is_stored(c, s, avatar_set(s, path)) && avatar_set(s, path).avatar_path == path,
        is_stored(c, s, warnings_set(s, on)) && warnings_set(s, on).no_warn_large_attach == on,
        name.len() > 0 ==> is_stored(c, s, nickname_set(s, name)) && nickname_set(
            s,
            name,
        ).own_nickname == name,
        name.len() == 0 ==> nickname_set(s, name) == s,
{
    let f = feature_set(s, feature, on);
    let a = avatar_set(s, path);
    let w = warnings_set(s, on);
    let n = nickname_set(s, name);
    assert(f.actions.drop_last() =~= s.actions);
    assert(a.actions.drop_last() =~= s.actions);
    assert(w.actions.drop_last() =~= s.actions);
    if name.len() > 0 {
        assert(n.actions.drop_last() =~= s.actions);
        law_changes(c, n.actions.last()->Configure_0);
    }
    law_changes(c, f.actions.last()->Configure_0);
    law_changes(c, a.actions.last()->Configure_0);
    law_changes(c, w.actions.last()->Configure_0);
}

/// The nickname changes only where that was asked for and confirmed. It is then
/// what was typed in without the blanks around it, and never empty. The
/// question is closed either way.
pub proof fn law_nickname_is_confirmed(s: AppView, confirm: bool)
    ensures
        ({
            let r = nickname_answered(s, confirm);
            &&& !r.confirm_nick
            &&& !(confirm && s.confirm_nick) ==> r == (AppView { confirm_nick: false, ..s })
            &&& confirm && s.confirm_nick && trimmed(s.nick_input).len() == 0 ==> r == (AppView {
                confirm_nick: false,
                ..s
            })
            &&& confirm && s.confirm_nick && trimmed(s.nick_input).len() > 0 ==> {
                &&& r.own_nickname == trimmed(s.nick_input)
                &&& r.own_nickname.len() > 0
                &&& !is_white_space(r.own_nickname[0])
                &&& !is_white_space(r.own_nickname.last())
                &&& r.status.len() > 0
            }
        }),
{
    law_trimmed(s.nick_input);
}

/// The user ID that the window shows is that of the identity, its short form is
/// how the user ID begins, and the seed reads back as the identity's seed.
pub proof fn law_identity_is_shown(s: AppView, ed_pub: Seq<u8>, seed: Seq<u8>, line: Seq<char>)
    requires
        ed_pub.len() == 32,
        seed.len() == 32,
    ensures
        ({
            let r = identity_set(s, ed_pub, seed, line);
            &&& id_of_text(r.own_id) == Ok::<Seq<u8>, IdError>(ed_pub)
            &&& r.own_short.len() == 12
            &&& r.own_short.is_prefix_of(r.own_id)
            &&& hex_value(encode_utf8(r.seed_hex)) == Some(seed)
            &&& r.status.last() == line
            &&& r.friends == s.friends && r.msgs == s.msgs && r.actions == s.actions
        }),
{
    law_id_round_trip(ed_pub);
    lemma_hex_text(ed_pub);
    lemma_hex_text(seed);
    assert(hex_text(ed_pub).take(12) =~= hex_text(ed_pub).subrange(0, 12));
}

/// A change of the key waits just where one was asked for, and a seed that was
/// typed in is taken only where it was asked for by hand.
pub proof fn law_key_question(s: AppView)
    ensures
        key_change(s) is Some <==> s.confirm_key is Some,
        s.confirm_key == Some("regenerate"@) ==> key_change(s) == Some(KeyChangeView::Regenerate),
        s.confirm_key == Some("manual"@) ==> key_change(s) == Some(
            KeyChangeView::Seed(s.seed_input),
        ),
{
    reveal_strlit("regenerate");
    reveal_strlit("manual");
    assert("regenerate"@.len() != "manual"@.len());
}

/// An avatar that was changed is told from what it was before, and from the
/// avatar that everybody has.
pub proof fn law_avatar_is_told_apart(s: AppView, m: u64, n: u64)
    ensures
        s.avatar_feature && s.avatar_path is Some && m != n ==> avatar_text(s, m) != avatar_text(
            s,
            n,
        ),
        !s.avatar_feature || s.avatar_path is None ==> avatar_text(s, m) == avatar_text(s, n),
        s.avatar_feature ==> avatar_text(s, m) != avatar_text(
            AppView { avatar_feature: false, ..s },
            n,
        ),
{
    reveal_strlit("custom|");
    reveal_strlit("custom_missing");
    reveal_strlit("default");
    if s.avatar_feature && s.avatar_path is Some && m != n {
        let head = "custom|"@ + s.avatar_path->Some_0 + "|"@;
        lemma_decimal(m as nat);
        lemma_decimal(n as nat);
        let a = head + decimal(m as nat);
        let b = head + decimal(n as nat);
        assert(a.skip(head.len() as int) =~= decimal(m as nat));
        assert(b.skip(head.len() as int) =~= decimal(n as nat));
        assert(avatar_text(s, m) == a);
        assert(avatar_text(s, n) == b);
    }
    if s.avatar_feature {
        assert(avatar_text(s, m)[0] == 'c');
        assert(avatar_text(AppView { avatar_feature: false, ..s }, n)[0] == 'd');
    }
}

/// A user who wants no warnings gets none, and one who wants them is warned
/// just above two mebibytes.
pub proof fn law_large_attachments(s: AppView, size: u64)
    ensures
        !warns(warnings_set(s, true), size),
        warns(warnings_set(s, false), size) <==> size > 2 * 1024 * 1024,
{
}

// ---------- keys ----------

/// Only Escape and Control-Q end the program. Without the control key the input
/// is all that Backspace and characters change.
pub proof fn law_keys_quit(s: AppView, s2: AppView, press: KeyPress)
    requires
        key_step(s, s2, press),
        !s.quit,
        press.code != KeyCode::Enter || press.ctrl,
        !(press.ctrl && press.code == KeyCode::Char('r')),
    ensures
        s2.quit <==> (press.ctrl && press.code == KeyCode::Char('q')) || (!press.ctrl && press.code
            == KeyCode::Esc),
        s2.friends == s.friends && s2.msgs == s.msgs && s2.next_seq == s.next_seq,
        press.ctrl ==> s2.input == s.input,
        !(press.ctrl && press.code == KeyCode::Char('f')) ==> s2.actions == s.actions && s2.status
            == s.status,
{
}

/// The help is shown with one press and hidden with the next.
pub proof fn law_help_toggles(s: AppView, a: AppView, b: AppView)
    requires
        key_step(s, a, KeyPress { ctrl: true, code: KeyCode::Char('h') }),
        key_step(a, b, KeyPress { ctrl: true, code: KeyCode::Char('h') }),
    ensures
        a.show_help != s.show_help,
        b == s,
{
}

/// Control-F asks common friends for the address of the friend whose
/// conversation is open, and for nobody else's.
pub proof fn law_address_is_asked_for(s: AppView, s2: AppView)
    requires
        key_step(s, s2, KeyPress { ctrl: true, code: KeyCode::Char('f') }),
    ensures
        match current_of(s) {
            Some(f) => match id_of_text(f.pubkey) {
                Ok(pk) => s2.actions == s.actions.push(
                    ActionView::Net(CommandView::FindAddress { recipient: pk }),
                ) && s2.status.len() > 0,
                Err(_) => s2 == s,
            },
            None => s2 == s,
        },
        s2.msgs == s.msgs && s2.next_seq == s.next_seq && s2.input == s.input,
{
}

} // verus!
