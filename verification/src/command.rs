//! The commands a user can type at the plain-text prompt.

use vstd::prelude::*;
use crate::text::{
    ascii_lower_seq, chars_eq_str, chars_of, parse_usize, parse_usize_chars, string_from_chars,
    to_ascii_lower, trim, trimmed,
};

verus! {

/// User actions accepted by the interactive prompt.
#[derive(Debug, PartialEq, Eq)]
pub enum Command {
    /// Drill into the slice numbered `slice_number` (1-indexed, as shown in legend).
    DrillInto { slice_number: usize },
    /// Go back up one folder level.
    Up,
    /// Re-scan and re-render the current folder (e.g. on empty input).
    Refresh,
    /// Open the drive picker.
    ChangeDrive,
    /// Exit the program.
    Quit,
    /// Unrecognised input; carries the trimmed text so the UI can echo it.
    Unknown(String),
}

/// The byte-order mark that some shells put in front of piped input.
pub open spec fn without_bom(s: Seq<char>) -> Seq<char> {
    if s.len() > 0 && s[0] == '\u{FEFF}' {
        s.drop_first()
    } else {
        s
    }
}

pub open spec fn is_up_word(l: Seq<char>) -> bool {
    l == "u"@ || l == "up"@ || l == ".."@
}

pub open spec fn is_quit_word(l: Seq<char>) -> bool {
    l == "q"@ || l == "quit"@ || l == "exit"@
}

pub open spec fn is_drive_word(l: Seq<char>) -> bool {
    l == "d"@ || l == "drive"@ || l == "drives"@
}

/// What `input` asks for. Words are matched without regard to ASCII case;
/// a number is a 1-based slice number; anything else comes back verbatim
/// (trimmed) as `Unknown`.
pub open spec fn command_matches(input: Seq<char>, c: Command) -> bool {
    let t = trim(without_bom(input));
    let l = ascii_lower_seq(t);
    if t.len() == 0 {
        c == Command::Refresh
    } else if is_up_word(l) {
        c == Command::Up
    } else if is_quit_word(l) {
        c == Command::Quit
    } else if is_drive_word(l) {
        c == Command::ChangeDrive
    } else if parse_usize(t) is Some && parse_usize(t).unwrap() >= 1 {
        c == (Command::DrillInto { slice_number: parse_usize(t).unwrap() })
    } else {
        c matches Command::Unknown(u) && u@ == t
    }
}

pub fn parse_command(input: &str) -> (c: Command)
    ensures
        command_matches(input@, c),
{
    let all = chars_of(input);
    let mut body: Vec<char> = Vec::new();
    let mut i: usize = if all.len() > 0 && all[0] == '\u{FEFF}' {
        1
    } else {
        0
    };
    let ghost first = i;
    while i < all.len()
        invariant
            first <= i <= all.len(),
            first == (if all@.len() > 0 && all@[0] == '\u{FEFF}' {
                1int
            } else {
                0int
            }),
            body@ == all@.subrange(first as int, i as int),
        decreases all.len() - i,
    {
        body.push(all[i]);
        i = i + 1;
    }
    assert(body@ == without_bom(input@));
    let t = trimmed(&body);
    if t.len() == 0 {
        return Command::Refresh;
    }
    let l = to_ascii_lower(&t);
    if chars_eq_str(&l, "u") || chars_eq_str(&l, "up") || chars_eq_str(&l, "..") {
        return Command::Up;
    }
    if chars_eq_str(&l, "q") || chars_eq_str(&l, "quit") || chars_eq_str(&l, "exit") {
        return Command::Quit;
    }
    if chars_eq_str(&l, "d") || chars_eq_str(&l, "drive") || chars_eq_str(&l, "drives") {
        return Command::ChangeDrive;
    }
    if let Some(slice_number) = parse_usize_chars(&t) {
        if slice_number >= 1 {
            return Command::DrillInto { slice_number };
        }
    }
    Command::Unknown(string_from_chars(&t))
}

} // verus!
