use camembert::command::{parse_command, Command};

#[test]
fn typing_a_slice_number_drills_into_that_slice() {
    assert_eq!(parse_command("1"), Command::DrillInto { slice_number: 1 });
    assert_eq!(parse_command("7"), Command::DrillInto { slice_number: 7 });
}

#[test]
fn slice_number_input_tolerates_surrounding_whitespace() {
    assert_eq!(parse_command("  3  "), Command::DrillInto { slice_number: 3 });
}

#[test]
fn slice_number_zero_is_unknown_because_legend_is_one_indexed() {
    assert_eq!(parse_command("0"), Command::Unknown("0".to_string()));
}

#[test]
fn typing_u_or_up_or_double_dot_goes_up_one_level() {
    assert_eq!(parse_command("u"), Command::Up);
    assert_eq!(parse_command("up"), Command::Up);
    assert_eq!(parse_command(".."), Command::Up);
}

#[test]
fn up_command_is_case_insensitive() {
    assert_eq!(parse_command("U"), Command::Up);
    assert_eq!(parse_command("Up"), Command::Up);
    assert_eq!(parse_command("UP"), Command::Up);
}

#[test]
fn typing_d_or_drive_or_drives_opens_the_drive_picker() {
    assert_eq!(parse_command("d"), Command::ChangeDrive);
    assert_eq!(parse_command("D"), Command::ChangeDrive);
    assert_eq!(parse_command("drive"), Command::ChangeDrive);
    assert_eq!(parse_command("drives"), Command::ChangeDrive);
}

#[test]
fn typing_q_or_quit_or_exit_quits() {
    assert_eq!(parse_command("q"), Command::Quit);
    assert_eq!(parse_command("quit"), Command::Quit);
    assert_eq!(parse_command("exit"), Command::Quit);
}

#[test]
fn empty_input_refreshes_the_view() {
    assert_eq!(parse_command(""), Command::Refresh);
    assert_eq!(parse_command("   "), Command::Refresh);
    assert_eq!(parse_command("\n"), Command::Refresh);
}

#[test]
fn a_leading_byte_order_mark_does_not_break_parsing() {
    assert_eq!(parse_command("\u{FEFF}3"), Command::DrillInto { slice_number: 3 });
    assert_eq!(parse_command("\u{FEFF}q"), Command::Quit);
}

#[test]
fn unrecognised_input_is_returned_verbatim_for_echoing() {
    assert_eq!(parse_command("hello"), Command::Unknown("hello".to_string()));
    assert_eq!(parse_command("12abc"), Command::Unknown("12abc".to_string()));
}

#[test]
fn numbers_follow_the_standard_usize_parser() {
    for s in ["+5", "+", "-3", "007", "18446744073709551615", "18446744073709551616", "1_0", "٣", " \u{3000}42\u{2003}"] {
        let t = s.trim();
        let expected = match t.parse::<usize>() {
            Ok(n) if n >= 1 => Command::DrillInto { slice_number: n },
            _ => Command::Unknown(t.to_string()),
        };
        assert_eq!(parse_command(s), expected, "input {s:?}");
    }
}

#[test]
fn trimming_matches_the_standard_whitespace_set() {
    for s in ["\u{85}q\u{a0}", "\u{200b}q", "\u{feff}\u{feff}q", "\tQUIT\r\n", "\u{2028}Drive\u{3000}"] {
        let without_bom = s.strip_prefix('\u{FEFF}').unwrap_or(s);
        let t = without_bom.trim();
        let expected = match t.to_ascii_lowercase().as_str() {
            "q" | "quit" | "exit" => Command::Quit,
            "d" | "drive" | "drives" => Command::ChangeDrive,
            _ => Command::Unknown(t.to_string()),
        };
        assert_eq!(parse_command(s), expected, "input {s:?}");
    }
}
