//! What the chat on the command line promises: who a line goes to, and what it
//! leads to.

use vstd::prelude::*;

use crate::crypto::id::{id_of_text, IdError};
use crate::headless::{
    commands, event_texts, find_nick, first_word, inputs, lemma_names, sends, MirrorView,
};
use crate::net::event::EventView;
use crate::scan::{find_char, lemma_find_char, lemma_find_char_is};
use crate::store::friends::FriendView;
use crate::table::law_table;
use crate::text::{is_white_space, lemma_trimmed_id, trimmed};
use crate::text_laws::{law_trimmed, stands_at};
use crate::tui::app::next_number;

verus! {

/// A text is its first word, a blank and the rest; without a blank it is one
/// word.
pub proof fn law_first_word(s: Seq<char>)
    ensures
        !first_word(s).0.contains(' '),
        s.contains(' ') ==> first_word(s).0 + seq![' '] + first_word(s).1 == s,
        !s.contains(' ') ==> first_word(s).0 == s && first_word(s).1.len() == 0,
{
    lemma_find_char(s, ' ');
    let i = find_char(s, ' ');
    let (w, rest) = first_word(s);
    if i < s.len() {
        assert(s[i] == ' ');
        assert(w + seq![' '] + rest =~= s);
        assert forall|j: int| 0 <= j < w.len() implies w[j] != ' ' by {
            assert(w[j] == s[j]);
        }
    } else {
        assert forall|j: int| 0 <= j < s.len() implies s[j] != ' ' by {}
    }
}

/// A nickname stands for the first friend that has it.
pub proof fn law_find_nick(fs: Seq<FriendView>, nickname: Seq<char>)
    ensures
        0 <= find_nick(fs, nickname) <= fs.len(),
        forall|j: int|
            0 <= j < find_nick(fs, nickname) ==> (#[trigger] fs[j]).nickname != nickname,
        find_nick(fs, nickname) < fs.len() ==> fs[find_nick(fs, nickname)].nickname == nickname,
    decreases fs.len(),
{
    if fs.len() > 0 && fs[0].nickname != nickname {
        let t = fs.drop_first();
        law_find_nick(t, nickname);
        assert forall|j: int| 0 <= j < find_nick(fs, nickname) implies (#[trigger] fs[j]).nickname
            != nickname by {
            if j > 0 {
                assert(t[j - 1] == fs[j]);
            }
        }
    }
}

/// Something that is not blank goes, without the blanks around it, to the first
/// friend with the nickname, under the next number for that nickname; then the
/// number after it is next. Otherwise nothing is sent and no number is used.
pub proof fn law_sends(
    m: MirrorView,
    fs: Seq<FriendView>,
    nickname: Seq<char>,
    content: Seq<char>,
    i: int,
    pk: Seq<u8>,
    other: Seq<char>,
)
    requires
        other != nickname,
    ensures
        ({
            let (m2, t) = sends(m, fs, nickname, content);
            let known = 0 <= i < fs.len() && fs[i].nickname == nickname && (forall|j: int|
                0 <= j < i ==> (#[trigger] fs[j]).nickname != nickname) && id_of_text(fs[i].pubkey)
                == Ok::<Seq<u8>, IdError>(pk);
            &&& m2.cur == m.cur
            &&& t.go_on
            &&& next_number(m2.seq, other) == next_number(m.seq, other)
            &&& trimmed(content).len() > 0 && known ==> {
                &&& t.send matches Some(o)
                &&& o.recipient == pk && o.nickname == nickname && o.content == trimmed(content)
                &&& o.seq == next_number(m.seq, nickname)
                &&& o.seq < u32::MAX ==> next_number(m2.seq, nickname) == o.seq + 1
                &&& t.lines.len() == 0
            }
            &&& trimmed(content).len() == 0 ==> t.send is None && t.lines.len() == 0
            &&& (forall|j: int| 0 <= j < fs.len() ==> (#[trigger] fs[j]).nickname != nickname)
                ==> t.send is None
            &&& t.send is None ==> m2 == m
        }),
{
    law_find_nick(fs, nickname);
    let at = find_nick(fs, nickname);
    if 0 <= i < fs.len() && fs[i].nickname == nickname && (forall|j: int|
        0 <= j < i ==> (#[trigger] fs[j]).nickname != nickname) {
        if at < i {
            assert(fs[at].nickname != nickname);
        } else if i < at {
            assert(fs[i].nickname != nickname);
        }
    }
    law_table(m.seq, nickname, next_number(m.seq, nickname), other);
}

/// A line that begins with neither a slash nor a colon goes to the one who is
/// talked to, and keeps who that is. Blanks around it do not count, and a blank
/// line does nothing.
pub proof fn law_plain_line(m: MirrorView, fs: Seq<FriendView>, line: Seq<char>)
    ensures
        ({
            let (m2, t) = inputs(m, fs, line);
            let text = trimmed(line);
            &&& text.len() == 0 ==> m2 == m && t.send is None && t.lines.len() == 0 && t.go_on
            &&& text.len() > 0 && text[0] != '/' && text[0] != ':' ==> {
                &&& t.go_on
                &&& m2.cur == m.cur
                &&& t.send matches Some(o) ==> o.nickname == m.cur && o.content == text
                &&& m.cur.len() == 0 ==> t.send is None && m2 == m
                &&& m.cur.len() > 0 ==> (m2, t) == sends(m, fs, m.cur, line)
            }
        }),
{
    let text = trimmed(line);
    let a = law_trimmed(line);
}

/// `:name text` and `/to name text` do the same: they talk to the one with that
/// nickname from then on, and send the text there.
pub proof fn law_addressed_line(
    m: MirrorView,
    fs: Seq<FriendView>,
    name: Seq<char>,
    text: Seq<char>,
)
    requires
        name.len() > 0,
        !name.contains(' '),
        !is_white_space(name[0]),
        text.len() > 0,
        !is_white_space(text[0]),
        !is_white_space(text.last()),
    ensures
        inputs(m, fs, seq![':'] + name + seq![' '] + text) == sends(
            MirrorView { cur: name, ..m },
            fs,
            name,
            text,
        ),
        inputs(m, fs, "/to "@ + name + seq![' '] + text) == inputs(
            m,
            fs,
            seq![':'] + name + seq![' '] + text,
        ),
{
    reveal_strlit("/to ");
    lemma_names();
    let body = name + seq![' '] + text;
    let a = seq![':'] + name + seq![' '] + text;
    let b = "/to "@ + name + seq![' '] + text;
    assert(body[0] == name[0] && body.last() == text.last());
    lemma_trimmed_id(body);
    lemma_trimmed_id(a);
    lemma_trimmed_id(b);
    assert(a.skip(1) =~= body);
    lemma_find_char_is(body, ' ', name.len() as int);
    assert(body.take(name.len() as int) =~= name);
    assert(body.skip(name.len() as int + 1) =~= text);
    let cmd = b.skip(1);
    assert(cmd =~= seq!['t', 'o', ' '] + body);
    lemma_find_char_is(cmd, ' ', 2);
    assert(cmd.take(2) =~= seq!['t', 'o']);
    assert(cmd.skip(3) =~= body);
    reveal_strlit("to");
    assert("to"@ =~= seq!['t', 'o']);
}

/// The chat ends exactly at `/quit` and `/q`, whatever follows them.
pub proof fn law_quit(m: MirrorView, fs: Seq<FriendView>, line: Seq<char>)
    ensures
        ({
            let (m2, t) = inputs(m, fs, line);
            let text = trimmed(line);
            let word = first_word(text.skip(1)).0;
            &&& !t.go_on <==> text.len() > 0 && text[0] == '/' && (word == "quit"@ || word
                == "q"@)
            &&& !t.go_on ==> t.send is None && m2 == m
        }),
{
    lemma_names();
}

/// `/use name` talks to the one with that nickname from then on if there is
/// one, and sends nothing.
pub proof fn law_use(m: MirrorView, fs: Seq<FriendView>, name: Seq<char>)
    requires
        trimmed(name).len() > 0,
    ensures
        ({
            let (m2, t) = commands(m, fs, "use"@ + seq![' '] + name);
            &&& t.send is None && t.go_on && m2.seq == m.seq
            &&& m2.cur == if exists|i: int|
                0 <= i < fs.len() && (#[trigger] fs[i]).nickname == trimmed(name) {
                trimmed(name)
            } else {
                m.cur
            }
        }),
{
    lemma_names();
    reveal_strlit("use");
    let cmd = "use"@ + seq![' '] + name;
    lemma_find_char_is(cmd, ' ', 3);
    assert(cmd.take(3) =~= "use"@);
    assert(cmd.skip(4) =~= name);
    law_find_nick(fs, trimmed(name));
}

/// A message that comes in is printed as one line that ends with its text, a
/// note as one line that ends with the note, and attachments are not printed.
pub proof fn law_event_lines(
    fs: Seq<FriendView>,
    peer: Seq<u8>,
    content: Seq<char>,
    seq: u32,
    ts: u64,
    time: Seq<char>,
    transfer: Seq<u8>,
)
    ensures
        ({
            let v = event_texts(
                EventView::MessageReceived { peer, content, seq, ts },
                fs,
                time,
            );
            &&& v.len() == 1
            &&& stands_at(v[0], v[0].len() - content.len(), content)
        }),
        ({
            let v = event_texts(EventView::Status(content), fs, time);
            &&& v.len() == 1
            &&& stands_at(v[0], v[0].len() - content.len(), content)
        }),
        event_texts(EventView::AttachAcked { peer, transfer }, fs, time).len() == 0,
        event_texts(EventView::AttachFailed { peer, transfer }, fs, time).len() == 0,
{
    let a = event_texts(EventView::MessageReceived { peer, content, seq, ts }, fs, time)[0];
    let b = event_texts(EventView::Status(content), fs, time)[0];
    assert(a.subrange(a.len() - content.len(), a.len() as int) =~= content);
    assert(b.subrange(b.len() - content.len(), b.len() as int) =~= content);
}

} // verus!
