//! The lines of the message file.

use vstd::prelude::*;

use crate::util::{format_time, shows_clock};

verus! {

/// A line of the message file: the local time and a text.
pub fn log_line(ts: u64, text: &str) -> (r: String)
    ensures
        exists|time: Seq<char>| #[trigger] shows_clock(ts, time) && r@ == time + " "@ + text@,
{
    let mut s = format_time(ts);
    let ghost time = s@;
    assert(shows_clock(ts, time));
    s.append(" ");
    s.append(text);
    s
}

} // verus!
