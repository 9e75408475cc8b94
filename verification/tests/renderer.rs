use camembert::render::layout::Layout;
use camembert::render::renderer::{
    humanize_bytes, legend_width, render, render_progress_view, render_scan_view,
    render_skeleton_view, render_with_layout, render_with_targets, ProgressItem, SliceAngles,
};
use camembert::{DiskEntry, EntryKind};
use std::f64::consts::{FRAC_PI_2, TAU};

/// The angle keys of a pie, computed with floating-point trigonometry.
fn slice_angles(pie: &[DiskEntry], radius: usize) -> SliceAngles {
    let total: u64 = pie.iter().map(|e| e.bytes).sum();
    let mut bounds = Vec::with_capacity(pie.len());
    let mut cumulative = 0.0_f64;
    for entry in pie {
        cumulative += (entry.bytes as f64 / total.max(1) as f64) * TAU;
        bounds.push(cumulative.to_bits());
    }
    let r = radius as f64;
    let height = 2 * radius + 1;
    let width = 2 * height;
    let mut cells = Vec::with_capacity(height);
    for row in 0..height {
        let mut keys = Vec::with_capacity(width);
        for col in 0..width {
            let dx = (col as f64 + 0.5) / 2.0 - r;
            let dy = (row as f64 + 0.5) - r;
            let mut angle = dy.atan2(dx) + FRAC_PI_2;
            if angle < 0.0 {
                angle += TAU;
            }
            keys.push(angle.to_bits());
        }
        cells.push(keys);
    }
    SliceAngles { cells, bounds }
}

fn folder(name: &str, bytes: u64) -> DiskEntry {
    DiskEntry::folder(name, bytes)
}

fn stacked(radius: usize) -> Layout {
    Layout { radius, side_by_side: false }
}

fn side_by_side(radius: usize) -> Layout {
    Layout { radius, side_by_side: true }
}

fn plain(pie: &[DiskEntry]) -> String {
    render(pie, &slice_angles(pie, 7))
}

fn with_targets(pie: &[DiskEntry]) -> camembert::render::renderer::RenderedView {
    render_with_targets(pie, &slice_angles(pie, 7))
}

fn with_layout(pie: &[DiskEntry], layout: &Layout) -> camembert::render::renderer::RenderedView {
    render_with_layout(pie, layout, &slice_angles(pie, layout.radius))
}

fn marker_in_legend_line(line: &str) -> Option<char> {
    let trimmed = line.trim_start();
    let after_open = trimmed.strip_prefix('[')?;
    let after_digits = after_open.trim_start_matches(|c: char| c.is_ascii_digit());
    let after_close = after_digits.strip_prefix(']')?;
    after_close.trim_start().chars().next()
}

#[test]
fn rendering_an_empty_pie_still_prints_a_friendly_message() {
    let output = plain(&[]);
    assert!(!output.trim().is_empty(), "empty pie must still print something");
}

#[test]
fn rendering_a_pie_lists_every_folder_name() {
    let pie = vec![folder("Documents", 100), folder("Videos", 50), DiskEntry::bucket("Autres", 25)];
    let output = plain(&pie);
    for entry in &pie {
        assert!(output.contains(&entry.name), "expected entry name {:?} in output\n{}", entry.name, output);
    }
}

#[test]
fn rendering_a_pie_shows_each_folders_share_as_a_percentage() {
    let pie = vec![folder("Videos", 75), folder("Documents", 25)];
    let output = plain(&pie);
    assert!(output.contains("75.0%"), "missing 75.0% in:\n{}", output);
    assert!(output.contains("25.0%"), "missing 25.0% in:\n{}", output);
}

#[test]
fn rendering_a_pie_shows_each_folders_size_in_human_units() {
    let pie = vec![folder("Videos", 2 * 1024 * 1024), folder("Documents", 512)];
    let output = plain(&pie);
    assert!(output.contains("2.0 MB"), "missing 2.0 MB in:\n{}", output);
    assert!(output.contains("512 B"), "missing 512 B in:\n{}", output);
}

#[test]
fn rendering_a_pie_uses_a_distinct_marker_for_each_folder() {
    let pie = vec![folder("Documents", 30), folder("Videos", 30), folder("Photos", 30)];
    let output = plain(&pie);
    let mut markers_seen = std::collections::HashSet::new();
    for line in output.lines() {
        for entry in &pie {
            if line.contains(&entry.name) {
                if let Some(marker) = marker_in_legend_line(line) {
                    markers_seen.insert(marker);
                }
            }
        }
    }
    assert_eq!(markers_seen.len(), pie.len(), "expected {} distinct markers, got {:?}\n{}", pie.len(), markers_seen, output);
}

#[test]
fn rendering_a_pie_actually_draws_a_circle_with_marker_characters() {
    let pie = vec![folder("OnlyFolder", 100)];
    let output = plain(&pie);
    let drawing_present = output.lines().any(|line| {
        line.chars()
            .filter(|c| !c.is_whitespace() && !c.is_ascii_alphanumeric() && *c != '%' && *c != '.')
            .count()
            >= 3
    });
    assert!(drawing_present, "expected a drawn pie in:\n{}", output);
}

#[test]
fn rendering_a_pie_numbers_each_legend_line_for_drilldown() {
    let pie = vec![folder("Documents", 30), folder("Videos", 30), folder("Photos", 30)];
    let output = plain(&pie);
    assert!(output.contains("[1]"), "missing [1] in:\n{}", output);
    assert!(output.contains("[2]"), "missing [2] in:\n{}", output);
    assert!(output.contains("[3]"), "missing [3] in:\n{}", output);
}

#[test]
fn render_with_targets_display_matches_plain_render() {
    let pie = vec![folder("Documents", 100), folder("Videos", 50)];
    assert_eq!(plain(&pie), with_targets(&pie).display);
}

#[test]
fn render_with_targets_yields_empty_targets_when_pie_is_empty() {
    let view = with_targets(&[]);
    assert!(view.targets.cells.is_empty());
}

#[test]
fn click_targets_legend_rows_resolve_to_each_slice_in_order() {
    let pie = vec![folder("a", 50), folder("b", 30), folder("c", 20)];
    let view = with_targets(&pie);
    let mut slice_seen: Vec<usize> = Vec::new();
    for row in &view.targets.cells {
        if let Some(&Some(idx)) = row.first() {
            if row.iter().all(|c| matches!(c, Some(i) if *i == idx)) {
                slice_seen.push(idx);
            }
        }
    }
    assert_eq!(slice_seen, vec![0, 1, 2]);
}

#[test]
fn render_with_targets_pie_grid_contains_at_least_one_slice_cell_per_slice() {
    let pie = vec![folder("a", 50), folder("b", 50)];
    let view = with_targets(&pie);
    let mut seen = std::collections::HashSet::new();
    for row in &view.targets.cells {
        for cell in row {
            if let Some(idx) = cell {
                seen.insert(*idx);
            }
        }
    }
    assert_eq!(seen, std::collections::HashSet::from([0usize, 1usize]));
}

#[test]
fn stacked_layout_puts_legend_below_the_pie() {
    let pie = vec![folder("Videos", 50), folder("Docs", 50)];
    let view = with_layout(&pie, &stacked(7));
    let lines: Vec<&str> = view.display.lines().collect();
    let legend_row = lines.iter().position(|l| l.contains("[1]")).expect("legend row missing");
    let pie_height = 2 * 7 + 1;
    assert!(legend_row >= pie_height, "stacked legend should be after the pie (row {} vs pie_height {})", legend_row, pie_height);
}

#[test]
fn side_by_side_layout_places_legend_on_the_same_row_as_the_pie_top() {
    let pie = vec![folder("Videos", 50), folder("Docs", 50)];
    let view = with_layout(&pie, &side_by_side(7));
    let first_line = view.display.lines().next().unwrap();
    assert!(first_line.contains("[1]"), "side-by-side first row must contain the legend's [1] entry, got: {:?}", first_line);
}

#[test]
fn side_by_side_click_targets_resolve_legend_clicks_at_the_pies_right() {
    let pie = vec![folder("Videos", 50), folder("Docs", 50)];
    let view = with_layout(&pie, &side_by_side(7));
    let last_row_cols = view.targets.cells[0].len();
    assert!(last_row_cols > 0);
    let legend_col = (last_row_cols - 1) as u16;
    assert_eq!(view.targets.slice_at(legend_col, 0), Some(0));
    assert_eq!(view.targets.slice_at(legend_col, 1), Some(1));
}

#[test]
fn side_by_side_click_targets_still_resolve_pie_clicks_on_the_left() {
    let pie = vec![folder("Videos", 50), folder("Docs", 50)];
    let view = with_layout(&pie, &side_by_side(7));
    let pie_height = 2 * 7 + 1;
    let center_col = (2 * pie_height / 2) as u16;
    let center_row = (pie_height / 2) as u16;
    assert!(view.targets.slice_at(center_col, center_row).is_some());
}

#[test]
fn scan_view_uses_the_layouts_radius_for_the_spinner() {
    let layout = Layout { radius: 10, side_by_side: false };
    let scan = render_scan_view(&layout, &[], 0);
    let expected_spinner_height = 2 * 10 + 1;
    assert!(
        scan.display.lines().count() >= expected_spinner_height,
        "scan view shorter than the spinner ({} < {})",
        scan.display.lines().count(),
        expected_spinner_height,
    );
}

#[test]
fn scan_view_with_a_preview_pie_shows_its_legend_below_the_spinner_when_stacked() {
    let preview = vec![folder("Documents", 100), folder("Videos", 50)];
    let layout = Layout { radius: 5, side_by_side: false };
    let scan = render_scan_view(&layout, &preview, 0);
    assert!(scan.display.contains("Documents"));
    assert!(scan.display.contains("Videos"));
    assert!(scan.display.contains("[1]"));
    assert!(scan.display.contains("[2]"));
}

#[test]
fn scan_view_with_preview_in_side_by_side_puts_legend_at_the_right_of_the_spinner() {
    let preview = vec![folder("Documents", 100), folder("Videos", 50)];
    let layout = Layout { radius: 5, side_by_side: true };
    let scan = render_scan_view(&layout, &preview, 0);
    let first = scan.display.lines().next().unwrap();
    assert!(first.contains("[1]"));
}

#[test]
fn scan_view_spinner_cells_are_not_clickable_targets() {
    let preview = vec![folder("Docs", 100)];
    let layout = Layout { radius: 5, side_by_side: false };
    let scan = render_scan_view(&layout, &preview, 0);
    let pie_height = 2 * 5 + 1;
    for row in &scan.targets.cells[..pie_height] {
        assert!(row.iter().all(|c| c.is_none()), "spinner row contains clickable cells: {:?}", row);
    }
}

#[test]
fn scan_view_without_a_preview_still_reserves_the_spinner_geometry() {
    let layout = Layout { radius: 7, side_by_side: false };
    let scan = render_scan_view(&layout, &[], 0);
    let pie_height = 2 * 7 + 1;
    assert!(scan.display.lines().count() >= pie_height);
}

fn pending(name: &str) -> ProgressItem {
    ProgressItem::pending(name, EntryKind::Folder)
}

fn known(name: &str, bytes: u64) -> ProgressItem {
    ProgressItem::known(name, EntryKind::Folder, bytes)
}

#[test]
fn progress_view_humanises_sizes_for_items_whose_walk_has_completed() {
    let items = vec![known("Documents", 2 * 1024 * 1024), pending("Videos")];
    let layout = Layout { radius: 5, side_by_side: false };
    let view = render_progress_view(&layout, &items, 0);
    assert!(view.display.contains("2.0 MB"), "Documents should show its size");
    assert!(!view.display.contains("Videos  2.0 MB"), "pending items should not show a size");
}

#[test]
fn progress_view_pending_items_show_a_cursor_placeholder() {
    let items = vec![pending("Videos")];
    let layout = Layout { radius: 5, side_by_side: false };
    let view = render_progress_view(&layout, &items, 0);
    assert!(view.display.contains('█') || view.display.contains('▒'), "expected cursor placeholder in pending row, got:\n{}", view.display);
}

#[test]
fn progress_view_size_column_is_right_aligned_so_filling_in_a_size_doesnt_shift_neighbouring_rows() {
    let items_a = vec![known("Documents", 100), pending("Videos")];
    let items_b = vec![known("Documents", 100), known("Videos", 999_999_999)];
    let layout = Layout { radius: 5, side_by_side: false };
    let lines_a: Vec<String> = render_progress_view(&layout, &items_a, 0).display.lines().map(String::from).collect();
    let lines_b: Vec<String> = render_progress_view(&layout, &items_b, 0).display.lines().map(String::from).collect();
    let line_a = lines_a.iter().find(|l| l.contains("Documents")).unwrap();
    let line_b = lines_b.iter().find(|l| l.contains("Documents")).unwrap();
    assert!(line_b.chars().count() >= line_a.chars().count(), "right-aligned column should grow or stay equal, never shrink unexpectedly");
}

#[test]
fn skeleton_view_shows_each_childs_name() {
    let skeleton = vec![DiskEntry::folder("Documents", 0), DiskEntry::folder("Videos", 0), DiskEntry::file("song.mp3", 0)];
    let layout = Layout { radius: 5, side_by_side: false };
    let view = render_skeleton_view(&layout, &skeleton, 0);
    assert!(view.display.contains("Documents"));
    assert!(view.display.contains("Videos"));
    assert!(view.display.contains("song.mp3"));
}

#[test]
fn skeleton_view_does_not_show_made_up_sizes_or_percentages() {
    let skeleton = vec![DiskEntry::folder("Documents", 0)];
    let layout = Layout { radius: 5, side_by_side: false };
    let view = render_skeleton_view(&layout, &skeleton, 0);
    assert!(!view.display.contains(" B "));
    assert!(!view.display.contains(" KB"));
    assert!(!view.display.contains(" MB"));
    assert!(!view.display.contains("NaN"));
    assert!(!view.display.contains("0 B"));
}

#[test]
fn skeleton_view_uses_a_cursor_placeholder_in_the_size_column() {
    let skeleton = vec![DiskEntry::folder("Documents", 0)];
    let layout = Layout { radius: 5, side_by_side: false };
    let view = render_skeleton_view(&layout, &skeleton, 0);
    assert!(view.display.contains('█') || view.display.contains('▒'), "expected a cursor-like placeholder character in:\n{}", view.display);
}

#[test]
fn skeleton_view_blinks_the_cursor_across_consecutive_frames() {
    let skeleton = vec![DiskEntry::folder("Documents", 0)];
    let layout = Layout { radius: 5, side_by_side: false };
    let frame_a = render_skeleton_view(&layout, &skeleton, 0).display;
    let frame_b = render_skeleton_view(&layout, &skeleton, 1).display;
    assert_ne!(frame_a, frame_b, "skeleton must visibly animate between frames");
}

#[test]
fn skeleton_view_numbers_each_legend_line_for_drilldown() {
    let skeleton = vec![DiskEntry::folder("Documents", 0), DiskEntry::folder("Videos", 0)];
    let layout = Layout { radius: 5, side_by_side: false };
    let view = render_skeleton_view(&layout, &skeleton, 0);
    assert!(view.display.contains("[1]"));
    assert!(view.display.contains("[2]"));
}

#[test]
fn larger_radius_produces_a_taller_pie() {
    let pie = vec![folder("OnlyFolder", 100)];
    let small = with_layout(&pie, &stacked(4));
    let big = with_layout(&pie, &stacked(10));
    let small_pie_lines = 2 * 4 + 1;
    let big_pie_lines = 2 * 10 + 1;
    assert!(small.display.lines().count() < big.display.lines().count());
    assert!(small.display.lines().count() >= small_pie_lines);
    assert!(big.display.lines().count() >= big_pie_lines);
}

#[test]
fn humanize_is_reachable_from_the_renderer() {
    assert_eq!(humanize_bytes(1536), "1.5 KB");
}

#[test]
fn legend_lines_have_the_documented_shape() {
    let pie = vec![folder("Videos", 75), folder("Documents", 25)];
    let view = with_layout(&pie, &stacked(4));
    let lines: Vec<&str> = view.display.lines().collect();
    assert_eq!(lines[9], "");
    assert_eq!(lines[10], "[1] █ Videos      75.0%   75 B");
    assert_eq!(lines[11], "[2] ▓ Documents   25.0%   25 B");
    assert_eq!(legend_width(&pie), 30);
}

#[test]
fn a_pie_with_zero_total_prints_its_own_message() {
    let pie = vec![folder("Empty", 0)];
    let view = with_layout(&pie, &stacked(4));
    assert_eq!(view.display, "(camembert vide — taille totale nulle)");
    assert!(view.targets.cells.is_empty());
}

#[test]
fn an_empty_or_weightless_pie_gives_a_message_and_no_targets_whatever_the_layout() {
    let empty = render_with_layout(&[], &side_by_side(1_000_000), &SliceAngles { cells: vec![], bounds: vec![] });
    assert!(!empty.display.trim().is_empty());
    assert!(empty.targets.cells.is_empty());
    let weightless = vec![folder("a", 0), folder("b", 0)];
    let v = render_with_layout(&weightless, &stacked(1_000_000), &SliceAngles { cells: vec![], bounds: vec![] });
    assert!(!v.display.trim().is_empty());
    assert!(v.targets.cells.is_empty());
}
