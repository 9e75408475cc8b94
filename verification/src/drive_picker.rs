//! What the drive picker does with each input event.

use vstd::prelude::*;
use crate::drives::DriveInfo;
use crate::event_map::{Event, KeyCode, MouseButton, MouseEventKind};

verus! {

/// Screen row of the first drive of the list (after the title and a blank line).
pub const FIRST_DRIVE_ROW: u16 = 3;

/// Width, in cells, of the usage bar drawn for each drive.
pub const BAR_WIDTH: usize = 20;

/// Footer of the picker.
pub const PICKER_FOOTER: &'static str = "1-9 ou clic = entrer  ·  Q ou Esc = annuler";

/// The position in the list of the drive drawn on screen row `row`, if any.
pub open spec fn drive_index_at(row: int, count: int) -> Option<int> {
    if row >= FIRST_DRIVE_ROW && row - FIRST_DRIVE_ROW < count {
        Some(row - FIRST_DRIVE_ROW)
    } else {
        None
    }
}

/// Returns the drive whose listing row was clicked, if `row` falls within the
/// drive list.
pub fn drive_at_row<'a>(drives: &'a [DriveInfo], row: u16) -> (r: Option<&'a DriveInfo>)
    ensures
        match drive_index_at(row as int, drives@.len() as int) {
            Some(i) => r matches Some(d) && *d == drives@[i],
            None => r is None,
        },
{
    if row < FIRST_DRIVE_ROW {
        return None;
    }
    let index = (row - FIRST_DRIVE_ROW) as usize;
    if index < drives.len() {
        Some(&drives[index])
    } else {
        None
    }
}

/// What the user did in the picker.
#[derive(Debug, Clone, Copy, PartialEq, Eq, Structural)]
pub enum PickerChoice {
    /// Leave the picker without choosing.
    Cancel,
    /// The drive at this position in the list was chosen.
    Choose(usize),
    /// Nothing chosen yet: draw the picker again and wait.
    Stay,
}

/// What an event means in a picker listing `count` drives: Q or Esc cancels;
/// digit `n` chooses the `n`-th drive when there is one; a left click on a
/// drive's row chooses it; anything else waits.
pub open spec fn picker_choice_of(event: Event, count: int) -> PickerChoice {
    match event {
        Event::Key(KeyCode::Esc) => PickerChoice::Cancel,
        Event::Key(KeyCode::Char(c)) => if c == 'q' || c == 'Q' {
            PickerChoice::Cancel
        } else if '1' <= c <= '9' && (c as int) - 49 < count {
            PickerChoice::Choose(((c as int) - 49) as usize)
        } else {
            PickerChoice::Stay
        },
        Event::Mouse(m) => if m.kind == MouseEventKind::Down(MouseButton::Left) {
            match drive_index_at(m.row as int, count) {
                Some(i) => PickerChoice::Choose(i as usize),
                None => PickerChoice::Stay,
            }
        } else {
            PickerChoice::Stay
        },
        _ => PickerChoice::Stay,
    }
}

pub fn picker_choice(event: &Event, drives: &[DriveInfo]) -> (c: PickerChoice)
    ensures
        c == picker_choice_of(*event, drives@.len() as int),
{
    match event {
        Event::Key(KeyCode::Esc) => PickerChoice::Cancel,
        Event::Key(KeyCode::Char(c)) => {
            let c = *c;
            if c == 'q' || c == 'Q' {
                PickerChoice::Cancel
            } else if '1' <= c && c <= '9' {
                let n = (c as u32 - 49) as usize;
                if n < drives.len() {
                    PickerChoice::Choose(n)
                } else {
                    PickerChoice::Stay
                }
            } else {
                PickerChoice::Stay
            }
        },
        Event::Mouse(m) => {
            if m.kind == MouseEventKind::Down(MouseButton::Left) {
                if m.row >= FIRST_DRIVE_ROW && ((m.row - FIRST_DRIVE_ROW) as usize) < drives.len() {
                    PickerChoice::Choose((m.row - FIRST_DRIVE_ROW) as usize)
                } else {
                    PickerChoice::Stay
                }
            } else {
                PickerChoice::Stay
            }
        },
        _ => PickerChoice::Stay,
    }
}

/// A left click in the picker chooses exactly the drive drawn on the clicked
/// row: the drive `drive_at_row` gives for that row, the `i`-th one being
/// drawn on row `FIRST_DRIVE_ROW + i`; a click on any other row chooses nothing.
pub proof fn lemma_click_chooses_the_drive_on_its_row(column: u16, row: u16, count: int, i: usize)
    requires
        count >= 0,
    ensures
        ({
            let click = Event::Mouse(
                crate::event_map::MouseEvent {
                    kind: MouseEventKind::Down(MouseButton::Left),
                    column,
                    row,
                },
            );
            &&& (picker_choice_of(click, count) == PickerChoice::Choose(i)) <==> (row == FIRST_DRIVE_ROW + i
                && i < count)
            &&& (picker_choice_of(click, count) is Choose) <==> (drive_index_at(row as int, count) is Some)
            &&& (picker_choice_of(click, count) is Choose) <==> (FIRST_DRIVE_ROW <= row < FIRST_DRIVE_ROW + count)
        }),
{
}

/// Keys in the picker: Q or Esc cancel; digit `n` chooses the `n`-th drive
/// exactly when there are at least `n` drives.
pub proof fn lemma_picker_keys(n: usize, count: int)
    requires
        1 <= n <= 9,
        count >= 0,
    ensures
        picker_choice_of(Event::Key(KeyCode::Char('q')), count) == PickerChoice::Cancel,
        picker_choice_of(Event::Key(KeyCode::Char('Q')), count) == PickerChoice::Cancel,
        picker_choice_of(Event::Key(KeyCode::Esc), count) == PickerChoice::Cancel,
        (picker_choice_of(Event::Key(KeyCode::Char(((n + 48) as u32) as char)), count) == PickerChoice::Choose(
            (n - 1) as usize,
        )) <==> n <= count,
        n > count ==> picker_choice_of(Event::Key(KeyCode::Char(((n + 48) as u32) as char)), count)
            == PickerChoice::Stay,
{
}

} // verus!
