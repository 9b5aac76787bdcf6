//! What the keys of the terminal interface do.
//!
//! Enter sends; Ctrl+N, Ctrl+P and Tab change the conversation; Ctrl+R sends
//! failed messages again; Ctrl+F asks for an address; Ctrl+H shows or hides
//! the help; Ctrl+Q and Esc quit.

use vstd::prelude::*;

use crate::text::{chars_of, text_between};
use crate::tui::app::{selected_next, selected_prev, App, AppView};
use crate::tui::sending::{address_asked, input_sent, retries};

verus! {

/// A key.
#[derive(Clone, Copy, Debug, PartialEq, Eq, Structural)]
pub enum KeyCode {
    Enter,
    Backspace,
    Tab,
    Esc,
    Char(char),
    Other,
}

/// A key that was pressed, with the control key or without.
#[derive(Clone, Copy, Debug, PartialEq, Eq, Structural)]
pub struct KeyPress {
    pub ctrl: bool,
    pub code: KeyCode,
}

/// Whether a character is a control character.
pub open spec fn is_control(c: char) -> bool {
    c as int <= 0x1f || 0x7f <= c as int <= 0x9f
}

fn control_char(c: char) -> (r: bool)
    ensures
        r == is_control(c),
{
    let n: u32 = c as u32;
    n <= 0x1f || (n >= 0x7f && n <= 0x9f)
}

/// A text without its last character.
pub open spec fn popped(s: Seq<char>) -> Seq<char> {
    if s.len() > 0 {
        s.drop_last()
    } else {
        s
    }
}

/// Whether `s2` is `s` after a key with the control key.
pub open spec fn control_step(s: AppView, s2: AppView, code: KeyCode) -> bool {
    match code {
        KeyCode::Char(c) => if c == 'q' {
            s2 == AppView { quit: true, ..s }
        } else if c == 'n' {
            s2 == selected_next(s)
        } else if c == 'p' {
            s2 == selected_prev(s)
        } else if c == 'f' {
            s2 == address_asked(s)
        } else if c == 'r' {
            retries(s, s2)
        } else if c == 'h' {
            s2 == AppView { show_help: !s.show_help, ..s }
        } else {
            s2 == s
        },
        _ => s2 == s,
    }
}

/// Whether `s2` is `s` after a key of its own.
pub open spec fn plain_step(s: AppView, s2: AppView, code: KeyCode) -> bool {
    match code {
        KeyCode::Enter => exists|ts: u64| s2 == #[trigger] input_sent(s, ts),
        KeyCode::Backspace => s2 == AppView { input: popped(s.input), ..s },
        KeyCode::Tab => s2 == selected_next(s),
        KeyCode::Esc => s2 == AppView { quit: true, ..s },
        KeyCode::Char(c) => if is_control(c) {
            s2 == s
        } else {
            s2 == AppView { input: s.input.push(c), ..s }
        },
        KeyCode::Other => s2 == s,
    }
}

/// Whether `s2` is `s` after a key.
pub open spec fn key_step(s: AppView, s2: AppView, press: KeyPress) -> bool {
    if press.ctrl {
        control_step(s, s2, press.code)
    } else {
        plain_step(s, s2, press.code)
    }
}

/// Takes in a key.
pub fn handle_key(app: &mut App, press: KeyPress)
    ensures
        key_step(old(app)@, final(app)@, press),
{
    if press.ctrl {
        handle_control(app, press.code);
    } else {
        handle_plain(app, press.code);
    }
}

fn handle_control(app: &mut App, code: KeyCode)
    ensures
        control_step(old(app)@, final(app)@, code),
{
    let c = match code {
        KeyCode::Char(c) => c,
        _ => {
            return;
        },
    };
    if c == 'q' {
        app.quit = true;
        assert(app@ =~= AppView { quit: true, ..old(app)@ });
    } else if c == 'n' {
        app.select_next();
    } else if c == 'p' {
        app.select_prev();
    } else if c == 'f' {
        app.find_address();
    } else if c == 'r' {
        app.retry_failed();
    } else if c == 'h' {
        app.show_help = !app.show_help;
        assert(app@ =~= AppView { show_help: !old(app)@.show_help, ..old(app)@ });
    }
}

fn handle_plain(app: &mut App, code: KeyCode)
    ensures
        plain_step(old(app)@, final(app)@, code),
{
    match code {
        KeyCode::Enter => {
            app.send_current();
        },
        KeyCode::Backspace => {
            let c = chars_of(&app.input);
            if c.len() > 0 {
                let shorter = text_between(&c, 0, c.len() - 1);
                assert(shorter@ =~= c@.drop_last());
                app.input = shorter;
            }
            assert(app@ =~= AppView { input: popped(old(app)@.input), ..old(app)@ });
        },
        KeyCode::Tab => {
            app.select_next();
        },
        KeyCode::Esc => {
            app.quit = true;
            assert(app@ =~= AppView { quit: true, ..old(app)@ });
        },
        KeyCode::Char(c) => {
            if !control_char(c) {
                app.input.push(c);
                assert(app@ =~= AppView { input: old(app)@.input.push(c), ..old(app)@ });
            }
        },
        KeyCode::Other => {},
    }
}

} // verus!
