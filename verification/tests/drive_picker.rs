use camembert::drive_picker::{drive_at_row, picker_choice, PickerChoice, FIRST_DRIVE_ROW};
use camembert::drives::DriveInfo;
use camembert::event_map::{Event, KeyCode, MouseButton, MouseEvent, MouseEventKind};
use std::path::PathBuf;

fn drive(letter: char, total: u64, used: u64) -> DriveInfo {
    DriveInfo { path: PathBuf::from(format!("{letter}:\\")), total, used }
}

#[test]
fn drive_at_row_returns_none_above_the_drive_list() {
    let drives = vec![drive('C', 100, 50)];
    assert!(drive_at_row(&drives, 0).is_none());
    assert!(drive_at_row(&drives, FIRST_DRIVE_ROW - 1).is_none());
}

#[test]
fn drive_at_row_returns_the_corresponding_drive_when_inside_the_list() {
    let drives = vec![drive('C', 100, 50), drive('D', 200, 100), drive('E', 300, 150)];
    assert_eq!(drive_at_row(&drives, FIRST_DRIVE_ROW).unwrap().path, PathBuf::from("C:\\"));
    assert_eq!(drive_at_row(&drives, FIRST_DRIVE_ROW + 1).unwrap().path, PathBuf::from("D:\\"));
    assert_eq!(drive_at_row(&drives, FIRST_DRIVE_ROW + 2).unwrap().path, PathBuf::from("E:\\"));
}

#[test]
fn drive_at_row_returns_none_below_the_drive_list() {
    let drives = vec![drive('C', 100, 50)];
    assert!(drive_at_row(&drives, FIRST_DRIVE_ROW + 1).is_none());
    assert!(drive_at_row(&drives, 99).is_none());
}

// ---- further cases ----

fn click(kind: MouseEventKind, row: u16) -> Event {
    Event::Mouse(MouseEvent { kind, column: 4, row })
}

#[test]
fn q_and_escape_cancel_the_picker() {
    let drives = vec![drive('C', 100, 50)];
    assert_eq!(picker_choice(&Event::Key(KeyCode::Char('q')), &drives), PickerChoice::Cancel);
    assert_eq!(picker_choice(&Event::Key(KeyCode::Char('Q')), &drives), PickerChoice::Cancel);
    assert_eq!(picker_choice(&Event::Key(KeyCode::Esc), &drives), PickerChoice::Cancel);
}

#[test]
fn a_digit_chooses_the_drive_it_numbers_when_there_is_one() {
    let drives = vec![drive('C', 100, 50), drive('D', 200, 100)];
    assert_eq!(picker_choice(&Event::Key(KeyCode::Char('1')), &drives), PickerChoice::Choose(0));
    assert_eq!(picker_choice(&Event::Key(KeyCode::Char('2')), &drives), PickerChoice::Choose(1));
    assert_eq!(picker_choice(&Event::Key(KeyCode::Char('3')), &drives), PickerChoice::Stay);
    assert_eq!(picker_choice(&Event::Key(KeyCode::Char('0')), &drives), PickerChoice::Stay);
    assert_eq!(picker_choice(&Event::Key(KeyCode::Char('x')), &drives), PickerChoice::Stay);
}

#[test]
fn a_left_click_on_a_drive_row_chooses_it() {
    let drives = vec![drive('C', 100, 50), drive('D', 200, 100)];
    let left = MouseEventKind::Down(MouseButton::Left);
    assert_eq!(picker_choice(&click(left, FIRST_DRIVE_ROW + 1), &drives), PickerChoice::Choose(1));
    assert_eq!(picker_choice(&click(left, FIRST_DRIVE_ROW + 2), &drives), PickerChoice::Stay);
    assert_eq!(picker_choice(&click(left, 0), &drives), PickerChoice::Stay);
    let right = MouseEventKind::Down(MouseButton::Right);
    assert_eq!(picker_choice(&click(right, FIRST_DRIVE_ROW), &drives), PickerChoice::Stay);
    assert_eq!(picker_choice(&Event::Resize(80, 24), &drives), PickerChoice::Stay);
}

#[test]
fn used_space_is_total_minus_available_saturating() {
    let d = DriveInfo::from_space(PathBuf::from("/"), 500, 109);
    assert_eq!((d.total, d.used), (500, 391));
    let odd = DriveInfo::from_space(PathBuf::from("/"), 100, 250);
    assert_eq!(odd.used, 0);
}
