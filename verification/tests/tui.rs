use camembert::command::Command;
use camembert::event_map::{
    is_quit_event, shift_event_into_view, Event, KeyCode, MouseButton, MouseEvent, MouseEventKind,
};
use camembert::render::layout::{compute_layout, Layout};
use camembert::render::renderer::{legend_width, render_with_layout, RenderedView, SliceAngles};
use camembert::text::truncate_to_chars;
use camembert::tui::{
    after_scan, refresh_forgets, scan_error_status, AfterScan, ScanEnd, ScanInput, ScanStep,
    merge_skeleton_with_completed, moved_to, name_less, pie_from_cache, prepare_skeleton,
    scan_cell_paint, scan_footer, scan_layout, view_action, view_inputs_fit, view_layout,
    CellPaint, CompletedSizes, ScanScreen, ViewAction, DEFAULT_LEGEND_WIDTH, MAX_SLICES,
};
use camembert::DiskEntry;
use std::collections::HashSet;
use std::f64::consts::{FRAC_PI_2, TAU};

/// The angle keys of a pie, computed with floating-point trigonometry.
fn slice_angles(pie: &[DiskEntry], radius: usize) -> SliceAngles {
    let total: u64 = pie.iter().map(|e| e.bytes).sum();
    let mut bounds = Vec::with_capacity(pie.len());
    let mut cumulative = 0.0_f64;
    for entry in pie {
        cumulative += (entry.bytes as f64 / total.max(1) as f64) * TAU;
        bounds.push(cumulative.to_bits());
    }
    let r = radius as f64;
    let height = 2 * radius + 1;
    let width = 2 * height;
    let mut cells = Vec::with_capacity(height);
    for row in 0..height {
        let mut keys = Vec::with_capacity(width);
        for col in 0..width {
            let dx = (col as f64 + 0.5) / 2.0 - r;
            let dy = (row as f64 + 0.5) - r;
            let mut angle = dy.atan2(dx) + FRAC_PI_2;
            if angle < 0.0 {
                angle += TAU;
            }
            keys.push(angle.to_bits());
        }
        cells.push(keys);
    }
    SliceAngles { cells, bounds }
}

fn with_layout(pie: &[DiskEntry], layout: &Layout) -> RenderedView {
    render_with_layout(pie, layout, &slice_angles(pie, layout.radius))
}

fn make_key(code: KeyCode) -> Event {
    Event::Key(code)
}

fn left_click(column: u16, row: u16) -> Event {
    Event::Mouse(MouseEvent { kind: MouseEventKind::Down(MouseButton::Left), column, row })
}

#[test]
fn shifting_a_mouse_event_subtracts_the_view_origin_from_the_row() {
    let shifted = shift_event_into_view(left_click(5, 10), 3);
    match shifted {
        Event::Mouse(m) => {
            assert_eq!(m.row, 7);
            assert_eq!(m.column, 5);
        }
        _ => panic!("expected mouse event"),
    }
}

#[test]
fn shifting_a_mouse_event_above_the_view_pushes_it_out_of_bounds() {
    let shifted = shift_event_into_view(left_click(5, 0), 3);
    match shifted {
        Event::Mouse(m) => assert_eq!(m.row, u16::MAX),
        _ => panic!("expected mouse event"),
    }
}

#[test]
fn shifting_leaves_non_mouse_events_unchanged() {
    let evt = make_key(KeyCode::Char('q'));
    let shifted = shift_event_into_view(evt, 3);
    assert_eq!(format!("{:?}", shifted), format!("{:?}", evt));
}

#[test]
fn quit_event_recognises_q_and_escape() {
    assert!(is_quit_event(&make_key(KeyCode::Char('q'))));
    assert!(is_quit_event(&make_key(KeyCode::Char('Q'))));
    assert!(is_quit_event(&make_key(KeyCode::Esc)));
}

#[test]
fn quit_event_does_not_match_other_keys() {
    assert!(!is_quit_event(&make_key(KeyCode::Char('x'))));
    assert!(!is_quit_event(&make_key(KeyCode::Enter)));
}

#[test]
fn rendering_with_a_computed_layout_yields_clickable_targets_for_each_slice() {
    let pie = vec![
        DiskEntry::folder("Documents", 100),
        DiskEntry::folder("Videos", 50),
        DiskEntry::folder("Photos", 25),
    ];
    let legend_w = legend_width(&pie);
    let layout = compute_layout(120, 40, pie.len(), legend_w);
    let view = with_layout(&pie, &layout);

    let mut seen = HashSet::new();
    for row in &view.targets.cells {
        for cell in row {
            if let Some(idx) = cell {
                seen.insert(*idx);
            }
        }
    }
    for i in 0..pie.len() {
        assert!(seen.contains(&i), "slice {} should be clickable in computed layout", i);
    }
}

#[test]
fn prepare_skeleton_sorts_alphabetically_so_the_legend_is_predictable_during_scan() {
    let raw = vec![
        DiskEntry::folder("Videos", 0),
        DiskEntry::folder("Documents", 0),
        DiskEntry::file("readme.txt", 0),
    ];
    let prepped = prepare_skeleton(raw);
    let names: Vec<&str> = prepped.iter().map(|e| e.name.as_str()).collect();
    assert_eq!(names, vec!["Documents", "Videos", "readme.txt"]);
}

#[test]
fn prepare_skeleton_caps_at_max_slices_with_a_tail_bucket_recording_what_was_dropped() {
    let raw: Vec<DiskEntry> =
        (0..MAX_SLICES + 5).map(|i| DiskEntry::folder(format!("entry_{:02}", i), 0)).collect();
    let prepped = prepare_skeleton(raw);
    assert_eq!(prepped.len(), MAX_SLICES + 1);
    let last = prepped.last().unwrap();
    assert!(
        last.name.contains("autres"),
        "tail bucket should mention dropped entries, got {:?}",
        last.name
    );
    assert!(!last.is_drillable(), "tail bucket must not be drillable");
}

#[test]
fn merge_skeleton_keeps_pending_for_names_not_yet_completed() {
    let skeleton = vec![DiskEntry::folder("Documents", 0), DiskEntry::folder("Videos", 0)];
    let completed = CompletedSizes::new();
    let items = merge_skeleton_with_completed(&skeleton, &completed);
    assert!(items.iter().all(|i| i.size.is_none()));
}

#[test]
fn merge_skeleton_fills_in_sizes_for_completed_top_level_children() {
    let skeleton = vec![
        DiskEntry::folder("Documents", 0),
        DiskEntry::folder("Videos", 0),
        DiskEntry::folder("Photos", 0),
    ];
    let mut completed = CompletedSizes::new();
    completed.insert("Documents".into(), 1024);
    completed.insert("Photos".into(), 9999);

    let items = merge_skeleton_with_completed(&skeleton, &completed);

    assert_eq!(items[0].name, "Documents");
    assert_eq!(items[0].size, Some(1024));
    assert_eq!(items[1].name, "Videos");
    assert_eq!(items[1].size, None);
    assert_eq!(items[2].name, "Photos");
    assert_eq!(items[2].size, Some(9999));
}

#[test]
fn truncate_to_chars_returns_short_strings_unchanged() {
    assert_eq!(truncate_to_chars("hello", 80), "hello");
}

#[test]
fn truncate_to_chars_caps_long_strings_at_the_requested_width() {
    let long = "C:\\Users\\Adam\\some\\very\\deep\\folder\\path\\going\\on\\forever";
    let result = truncate_to_chars(long, 20);
    assert_eq!(result.chars().count(), 20);
    assert!(long.starts_with(&result));
}

#[test]
fn truncate_to_chars_is_unicode_safe_and_does_not_split_multi_byte_characters() {
    let s = "📁foo→bar";
    let result = truncate_to_chars(s, 5);
    assert_eq!(result.chars().count(), 5);
}

#[test]
fn prepare_skeleton_under_max_slices_does_not_invent_a_bucket() {
    let raw = vec![DiskEntry::folder("Documents", 0), DiskEntry::folder("Videos", 0)];
    let prepped = prepare_skeleton(raw);
    assert_eq!(prepped.len(), 2);
    for entry in &prepped {
        assert!(!entry.name.contains("autres"));
    }
}

#[test]
fn resizing_the_terminal_recomputes_the_pie_radius() {
    let pie = vec![DiskEntry::folder("Only", 100)];
    let legend_w = legend_width(&pie);
    let small = compute_layout(80, 24, pie.len(), legend_w);
    let large = compute_layout(200, 60, pie.len(), legend_w);
    let small_view = with_layout(&pie, &small);
    let large_view = with_layout(&pie, &large);
    assert!(
        large_view.display.lines().count() > small_view.display.lines().count(),
        "larger terminal should produce a taller render"
    );
}

// ---- further cases ----

#[test]
fn the_bucket_names_exactly_how_many_children_were_dropped() {
    let raw: Vec<DiskEntry> =
        (0..MAX_SLICES + 5).map(|i| DiskEntry::folder(format!("entry_{:02}", i), 0)).collect();
    let prepped = prepare_skeleton(raw);
    assert_eq!(prepped[MAX_SLICES].name, "(et 5 autres…)");
    assert_eq!(prepped[MAX_SLICES].bytes, 0);
    assert_eq!(prepped[0].name, "entry_00");
    assert_eq!(prepped[MAX_SLICES - 1].name, "entry_07");
}

#[test]
fn skeleton_order_is_by_code_point_and_keeps_equal_names_in_order() {
    let raw = vec![
        DiskEntry::folder("b", 1),
        DiskEntry::file("B", 2),
        DiskEntry::folder("a", 3),
        DiskEntry::file("b", 4),
        DiskEntry::folder("É", 5),
    ];
    let prepped = prepare_skeleton(raw);
    let seen: Vec<(&str, u64)> = prepped.iter().map(|e| (e.name.as_str(), e.bytes)).collect();
    assert_eq!(seen, vec![("B", 2), ("a", 3), ("b", 1), ("b", 4), ("É", 5)]);
}

#[test]
fn name_less_compares_like_strings_do() {
    let pairs = [("a", "b"), ("ab", "a"), ("", "a"), ("a", "a"), ("Z", "a"), ("é", "z"), ("abc", "abd")];
    for (x, y) in pairs {
        let (x, y) = (x.to_string(), y.to_string());
        assert_eq!(name_less(&x, &y), x < y, "{x:?} < {y:?}");
    }
}

#[test]
fn a_later_size_report_replaces_an_earlier_one() {
    let mut completed = CompletedSizes::new();
    completed.insert("Documents".into(), 1);
    completed.insert("Videos".into(), 2);
    completed.insert("Documents".into(), 3);
    assert_eq!(completed.get(&"Documents".to_string()), Some(3));
    assert_eq!(completed.get(&"Videos".to_string()), Some(2));
    assert_eq!(completed.get(&"Photos".to_string()), None);
}

#[test]
fn scan_layout_without_a_preview_makes_room_for_the_largest_pie() {
    let expected = compute_layout(80, 24, MAX_SLICES + 1, DEFAULT_LEGEND_WIDTH);
    assert_eq!(scan_layout(80, 24, &[]), expected);
    let preview = vec![DiskEntry::folder("Documents", 10)];
    assert_eq!(scan_layout(80, 24, &preview), compute_layout(80, 24, 1, legend_width(&preview)));
    assert_eq!(view_layout(80, 24, &preview), compute_layout(80, 24, 1, legend_width(&preview)));
    assert!(view_inputs_fit(&preview));
    assert!(!view_inputs_fit(&[DiskEntry::folder("a", u64::MAX), DiskEntry::folder("b", 1)]));
}

#[test]
fn view_actions_follow_the_command() {
    let pie = vec![DiskEntry::folder("Documents", 10), DiskEntry::file("song.mp3", 5)];
    assert!(matches!(view_action(Some(Command::Quit), &pie, false), ViewAction::Quit));
    match view_action(Some(Command::Refresh), &pie, false) {
        ViewAction::Refresh { status } => assert_eq!(status, "Refresh forcé (cache vidé)"),
        other => panic!("unexpected {other:?}"),
    }
    match view_action(Some(Command::Up), &pie, false) {
        ViewAction::GoUp { status } => assert_eq!(status, "↑ remonté"),
        other => panic!("unexpected {other:?}"),
    }
    match view_action(Some(Command::Up), &pie, true) {
        ViewAction::PickDrive { cancel_status: Some(s) } => {
            assert_eq!(s, "(racine du disque · D pour changer de lecteur)")
        }
        other => panic!("unexpected {other:?}"),
    }
    assert!(matches!(
        view_action(Some(Command::ChangeDrive), &pie, false),
        ViewAction::PickDrive { cancel_status: None }
    ));
    match view_action(Some(Command::DrillInto { slice_number: 1 }), &pie, false) {
        ViewAction::Drill { name, status } => {
            assert_eq!(name, "Documents");
            assert_eq!(status, "→ Documents");
        }
        other => panic!("unexpected {other:?}"),
    }
    match view_action(Some(Command::DrillInto { slice_number: 2 }), &pie, false) {
        ViewAction::Notify { status } => {
            assert_eq!(status, "« song.mp3 » n'est pas un dossier — drill-down impossible")
        }
        other => panic!("unexpected {other:?}"),
    }
    assert!(matches!(
        view_action(Some(Command::DrillInto { slice_number: 3 }), &pie, false),
        ViewAction::Ignore
    ));
    assert!(matches!(view_action(Some(Command::Unknown("x".into())), &pie, false), ViewAction::Ignore));
    assert!(matches!(view_action(None, &pie, false), ViewAction::Ignore));
}

#[test]
fn moved_to_and_the_scan_footer_read_as_expected() {
    assert_eq!(moved_to("/home/adam"), "→ /home/adam");
    assert_eq!(scan_footer(Some("/tmp/x")), "⟳ /tmp/x  (Q = annuler)");
    assert_eq!(scan_footer(None), "Scan en cours…  (Q pour annuler)");
}

#[test]
fn a_cached_listing_is_aggregated_and_announced() {
    let cached = vec![
        DiskEntry::folder("a", 1),
        DiskEntry::folder("b", 3),
        DiskEntry::file("c", 2),
    ];
    let (pie, status) = pie_from_cache(cached).unwrap();
    assert_eq!(status, "(cache · 3 entrées)");
    let names: Vec<&str> = pie.iter().map(|e| e.name.as_str()).collect();
    assert_eq!(names, vec!["b", "c", "a"]);
    let many: Vec<DiskEntry> = (0..11).map(|i| DiskEntry::folder(format!("d{i}"), u64::MAX / 2)).collect();
    assert!(pie_from_cache(many).is_none());
}

#[test]
fn spinner_pixels_legend_cells_and_blanks_are_painted_apart() {
    assert_eq!(scan_cell_paint(0, 9, None, '█'), CellPaint::Spinner);
    assert_eq!(scan_cell_paint(0, 9, None, ' '), CellPaint::Plain);
    assert_eq!(scan_cell_paint(0, 9, Some(2), 'D'), CellPaint::Slice(2));
    assert_eq!(scan_cell_paint(9, 9, None, 'x'), CellPaint::Plain);
    assert_eq!(scan_cell_paint(12, 9, Some(0), '['), CellPaint::Slice(0));
}

#[test]
fn the_scan_screen_switches_from_preview_to_skeleton_and_fills_in_sizes() {
    let layout = compute_layout(80, 24, MAX_SLICES + 1, DEFAULT_LEGEND_WIDTH);
    let mut screen = ScanScreen::new(layout);
    let preview = vec![DiskEntry::folder("Previous", 10)];
    let first = screen.frame_view(&preview);
    assert!(first.display.contains("Previous"));

    screen.on_skeleton(vec![DiskEntry::folder("Videos", 0), DiskEntry::folder("Documents", 0)]);
    screen.on_completed("Videos".to_string(), 2 * 1024 * 1024);
    let view = screen.frame_view(&preview);
    assert!(!view.display.contains("Previous"));
    assert!(view.display.contains("Documents"));
    assert!(view.display.contains("2.0 MB"));
    let docs_row = view.display.lines().position(|l| l.contains("Documents")).unwrap();
    let videos_row = view.display.lines().position(|l| l.contains("Videos")).unwrap();
    assert!(docs_row < videos_row);

    screen.advance();
    assert_eq!(screen.frame_index, 1);
    screen.on_resize(200, 60, &preview);
    assert_eq!(screen.layout, compute_layout(200, 60, 2, legend_width(screen.skeleton.as_ref().unwrap())));
}

#[test]
fn a_failed_scan_moves_up_unless_at_a_root_and_a_cancelled_one_leaves() {
    assert_eq!(after_scan(ScanEnd::Done, false), AfterScan::ShowPie);
    assert_eq!(after_scan(ScanEnd::Cancelled, true), AfterScan::Leave);
    assert_eq!(after_scan(ScanEnd::Failed, true), AfterScan::RetryAtParent);
    assert_eq!(after_scan(ScanEnd::Failed, false), AfterScan::Leave);
    assert_eq!(scan_error_status("accès refusé"), "Erreur scan : accès refusé — on remonte");
}

#[test]
fn a_refresh_forgets_the_folder_and_everything_below_it_only() {
    let p = |parts: &[&str]| -> Vec<Vec<u8>> { parts.iter().map(|s| s.as_bytes().to_vec()).collect() };
    let here = p(&["/", "home", "adam"]);
    assert!(refresh_forgets(&here, &p(&["/", "home", "adam"])));
    assert!(refresh_forgets(&here, &p(&["/", "home", "adam", "Photos", "2024"])));
    assert!(!refresh_forgets(&here, &p(&["/", "home"])));
    assert!(!refresh_forgets(&here, &p(&["/", "home", "adamx"])));
    assert!(!refresh_forgets(&here, &p(&["/", "srv", "adam"])));
    let not_utf8 = vec![b"/".to_vec(), vec![0xff, 0xfe]];
    assert!(refresh_forgets(&not_utf8, &[b"/".to_vec(), vec![0xff, 0xfe], b"x".to_vec()]));
    assert!(!refresh_forgets(&not_utf8, &[b"/".to_vec(), vec![0xff, 0xfd]]));
}

#[test]
fn the_scan_screen_decides_when_a_scan_ends() {
    let layout = compute_layout(80, 24, MAX_SLICES + 1, DEFAULT_LEGEND_WIDTH);
    let mut screen = ScanScreen::new(layout);
    let none: Vec<DiskEntry> = Vec::new();
    assert_eq!(screen.handle(ScanInput::Visiting, &none), ScanStep::Continue);
    assert_eq!(screen.handle(ScanInput::Skeleton(vec![DiskEntry::folder("b", 0), DiskEntry::folder("a", 0)]), &none), ScanStep::Continue);
    assert_eq!(screen.skeleton.as_ref().unwrap()[0].name, "a");
    assert_eq!(screen.handle(ScanInput::Completed { name: "b".into(), bytes: 7 }, &none), ScanStep::Continue);
    assert_eq!(screen.completed.get(&"b".to_string()), Some(7));
    assert_eq!(screen.handle(ScanInput::Input(Event::Key(KeyCode::Char('x'))), &none), ScanStep::Continue);
    assert_eq!(screen.handle(ScanInput::Input(Event::Resize(200, 60)), &none), ScanStep::Continue);
    assert_eq!(screen.layout, compute_layout(200, 60, 2, legend_width(screen.skeleton.as_ref().unwrap())));
    assert_eq!(screen.handle(ScanInput::Input(Event::Key(KeyCode::Esc)), &none), ScanStep::End(ScanEnd::Cancelled));
    assert_eq!(screen.handle(ScanInput::Input(Event::Key(KeyCode::Char('q'))), &none), ScanStep::End(ScanEnd::Cancelled));
    assert_eq!(screen.handle(ScanInput::Finished, &none), ScanStep::End(ScanEnd::Done));
    assert_eq!(screen.handle(ScanInput::Failed, &none), ScanStep::End(ScanEnd::Failed));
}
