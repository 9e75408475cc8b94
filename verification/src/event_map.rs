//! Terminal input events, as the library reads them, and the command each one
//! asks for.

use vstd::prelude::*;
use crate::command::Command;
use crate::render::mouse_target::{cell_at, ClickTargets};

verus! {

/// A key, as far as the command mapping tells keys apart.
#[derive(Debug, Clone, Copy, PartialEq, Eq, Structural)]
pub enum KeyCode {
    Char(char),
    Esc,
    Enter,
    /// Any other key.
    Other,
}

#[derive(Debug, Clone, Copy, PartialEq, Eq, Structural)]
pub enum MouseButton {
    Left,
    Right,
    Middle,
}

#[derive(Debug, Clone, Copy, PartialEq, Eq, Structural)]
pub enum MouseEventKind {
    Down(MouseButton),
    Up(MouseButton),
    Drag(MouseButton),
    Moved,
    /// Wheel scrolls, in any direction.
    Scroll,
}

/// A mouse event at a view-relative cell.
#[derive(Debug, Clone, Copy, PartialEq, Eq, Structural)]
pub struct MouseEvent {
    pub kind: MouseEventKind,
    pub column: u16,
    pub row: u16,
}

#[derive(Debug, Clone, Copy, PartialEq, Eq, Structural)]
pub enum Event {
    Key(KeyCode),
    Mouse(MouseEvent),
    Resize(u16, u16),
    /// Focus changes, pastes and the like.
    Other,
}

/// The command a key press asks for, if any.
pub open spec fn key_command(c: KeyCode) -> Option<Command> {
    match c {
        KeyCode::Esc => Some(Command::Quit),
        KeyCode::Char(ch) => if ch == 'q' || ch == 'Q' {
            Some(Command::Quit)
        } else if ch == 'u' || ch == 'U' {
            Some(Command::Up)
        } else if ch == 'r' || ch == 'R' {
            Some(Command::Refresh)
        } else if ch == 'd' || ch == 'D' {
            Some(Command::ChangeDrive)
        } else if '1' <= ch <= '9' {
            Some(Command::DrillInto { slice_number: ((ch as u32) - 48) as usize })
        } else {
            None
        },
        _ => None,
    }
}

/// The command an event asks for, given the click targets of the view.
/// Mouse coordinates are view-relative.
pub open spec fn event_command(event: Event, grid: Seq<Seq<Option<usize>>>) -> Option<Command> {
    match event {
        Event::Key(c) => key_command(c),
        Event::Mouse(m) => match m.kind {
            MouseEventKind::Down(MouseButton::Left) => match cell_at(
                grid,
                m.column as int,
                m.row as int,
            ) {
                Some(i) => Some(Command::DrillInto { slice_number: (i + 1) as usize }),
                None => None,
            },
            MouseEventKind::Down(MouseButton::Right) => Some(Command::Up),
            _ => None,
        },
        _ => None,
    }
}

/// A left click would not land on a cell holding `usize::MAX`, whose slice
/// number does not exist.
pub open spec fn click_in_range(event: Event, grid: Seq<Seq<Option<usize>>>) -> bool {
    match event {
        Event::Mouse(m) => m.kind == MouseEventKind::Down(MouseButton::Left) ==> cell_at(
            grid,
            m.column as int,
            m.row as int,
        ) != Some(usize::MAX),
        _ => true,
    }
}

fn key_to_command(c: KeyCode) -> (r: Option<Command>)
    ensures
        r == key_command(c),
{
    match c {
        KeyCode::Esc => Some(Command::Quit),
        KeyCode::Char(ch) => {
            if ch == 'q' || ch == 'Q' {
                Some(Command::Quit)
            } else if ch == 'u' || ch == 'U' {
                Some(Command::Up)
            } else if ch == 'r' || ch == 'R' {
                Some(Command::Refresh)
            } else if ch == 'd' || ch == 'D' {
                Some(Command::ChangeDrive)
            } else if '1' <= ch && ch <= '9' {
                Some(Command::DrillInto { slice_number: ((ch as u32) - 48) as usize })
            } else {
                None
            }
        },
        _ => None,
    }
}

/// Translates an input event into a `Command`, given the click-target map of the
/// currently displayed view.
pub fn event_to_command(event: &Event, targets: &ClickTargets) -> (r: Option<Command>)
    requires
        click_in_range(*event, targets.grid()),
    ensures
        r == event_command(*event, targets.grid()),
{
    match event {
        Event::Key(c) => key_to_command(*c),
        Event::Mouse(m) => match m.kind {
            MouseEventKind::Down(MouseButton::Left) => match targets.slice_at(m.column, m.row) {
                Some(index) => Some(Command::DrillInto { slice_number: index + 1 }),
                None => None,
            },
            MouseEventKind::Down(MouseButton::Right) => Some(Command::Up),
            _ => None,
        },
        _ => None,
    }
}

/// Whether an event asks to quit (used while a scan is running).
pub fn is_quit_event(event: &Event) -> (b: bool)
    ensures
        b == (event matches Event::Key(c) && (c == KeyCode::Char('q') || c == KeyCode::Char('Q')
            || c == KeyCode::Esc)),
{
    match event {
        Event::Key(KeyCode::Char(c)) => *c == 'q' || *c == 'Q',
        Event::Key(KeyCode::Esc) => true,
        _ => false,
    }
}

/// `event` with its row counted from the view's top row `view_origin_row`;
/// rows above the view become `u16::MAX`.
pub open spec fn shifted_event(event: Event, view_origin_row: u16) -> Event {
    match event {
        Event::Mouse(m) => Event::Mouse(
            MouseEvent {
                row: if m.row < view_origin_row {
                    u16::MAX
                } else {
                    (m.row - view_origin_row) as u16
                },
                ..m
            },
        ),
        other => other,
    }
}

/// Moves a mouse event from screen rows to rows of a view whose top row is at
/// `view_origin_row`; a click above the view lands on row `u16::MAX`, outside
/// any view. Other events pass unchanged.
pub fn shift_event_into_view(event: Event, view_origin_row: u16) -> (e: Event)
    ensures
        e == shifted_event(event, view_origin_row),
{
    match event {
        Event::Mouse(mouse) => {
            let new_row = if mouse.row < view_origin_row {
                u16::MAX
            } else {
                mouse.row - view_origin_row
            };
            Event::Mouse(MouseEvent { kind: mouse.kind, column: mouse.column, row: new_row })
        },
        other => other,
    }
}

/// A click above the view resolves to no slice once moved into the view's
/// rows, whatever the targets of a view of fewer than `u16::MAX` rows; a
/// click inside the view resolves to the cell under it.
pub proof fn lemma_shifted_click_resolves_in_view(m: MouseEvent, origin: u16, grid: Seq<Seq<Option<usize>>>)
    requires
        m.kind == MouseEventKind::Down(MouseButton::Left),
        grid.len() < u16::MAX,
    ensures
        m.row < origin ==> event_command(shifted_event(Event::Mouse(m), origin), grid) is None,
        m.row >= origin ==> event_command(shifted_event(Event::Mouse(m), origin), grid) == match cell_at(
            grid,
            m.column as int,
            m.row - origin,
        ) {
            Some(i) => Some(Command::DrillInto { slice_number: (i + 1) as usize }),
            None => None,
        },
{
}

/// Letter keys do not depend on case: a capital letter asks for what its
/// small letter asks for; U goes up, Q quits, R refreshes and D opens the
/// drive picker, in either case.
pub proof fn lemma_letter_keys_ignore_case(ch: char)
    requires
        'a' <= ch <= 'z',
    ensures
        key_command(KeyCode::Char(ch)) == key_command(KeyCode::Char(((ch as u32) - 32) as char)),
        key_command(KeyCode::Char('u')) == Some(Command::Up),
        key_command(KeyCode::Char('U')) == Some(Command::Up),
        key_command(KeyCode::Char('q')) == Some(Command::Quit),
        key_command(KeyCode::Char('Q')) == Some(Command::Quit),
        key_command(KeyCode::Char('r')) == Some(Command::Refresh),
        key_command(KeyCode::Char('R')) == Some(Command::Refresh),
        key_command(KeyCode::Char('d')) == Some(Command::ChangeDrive),
        key_command(KeyCode::Char('D')) == Some(Command::ChangeDrive),
{
}

/// Digit keys 1 to 9 drill into the slice of that number; 0 numbers no slice.
pub proof fn lemma_digit_keys_drill_into_their_slice(n: usize)
    requires
        1 <= n <= 9,
    ensures
        key_command(KeyCode::Char(((n + 48) as u32) as char)) == Some(Command::DrillInto { slice_number: n }),
        key_command(KeyCode::Char('0')) is None,
{
}

} // verus!
