//! Composes the pie, the legend and the spinner into printable views with a
//! matching grid of click targets.

use vstd::prelude::*;
use crate::{DiskEntry, EntryKind};
use crate::aggregator::{sum_bytes, total_bytes};
use crate::render::cheese_spinner::{cell_in_disc, frame, frame_fits, in_disc, lemma_radius_small, spinner_row};
use crate::render::layout::{Layout, pie_height, pie_width};
use crate::render::mouse_target::{grid_view, ClickTargets};
pub use crate::render::number_format::humanize_bytes;
use crate::render::number_format::{
    decimal, humanized, one_decimal, push_decimal, push_one_decimal,
    share_tenths, share_tenths_exec,
};
use crate::text::{
    chars_of, is_whitespace, push_spaces, trim_end, trimmed_end, pad_left, pad_right, push_char, push_chars, push_padded_left, push_padded_right,
    spaces,
};

verus! {

/// Marker characters, one per slice, cycling.
pub open spec fn marker_char(i: int) -> char {
    let k = i % 10;
    if k == 0 {
        '█'
    } else if k == 1 {
        '▓'
    } else if k == 2 {
        '▒'
    } else if k == 3 {
        '░'
    } else if k == 4 {
        '#'
    } else if k == 5 {
        '@'
    } else if k == 6 {
        '*'
    } else if k == 7 {
        '+'
    } else if k == 8 {
        '='
    } else {
        'o'
    }
}

pub fn marker_for(i: usize) -> (c: char)
    ensures
        c == marker_char(i as int),
{
    let k = i % 10;
    if k == 0 {
        '█'
    } else if k == 1 {
        '▓'
    } else if k == 2 {
        '▒'
    } else if k == 3 {
        '░'
    } else if k == 4 {
        '#'
    } else if k == 5 {
        '@'
    } else if k == 6 {
        '*'
    } else if k == 7 {
        '+'
    } else if k == 8 {
        '='
    } else {
        'o'
    }
}

/// The widest name, in characters.
pub open spec fn max_name_width(names: Seq<Seq<char>>) -> int
    decreases names.len(),
{
    if names.len() == 0 {
        0
    } else {
        let rest = max_name_width(names.drop_last());
        if names.last().len() > rest {
            names.last().len() as int
        } else {
            rest
        }
    }
}

pub open spec fn entry_names(pie: Seq<DiskEntry>) -> Seq<Seq<char>> {
    Seq::new(pie.len(), |i: int| pie[i].name@)
}

/// `[N] M name` with the slice number right-aligned to the width of the
/// largest number and the name left-aligned to the widest name.
pub open spec fn legend_head(index: int, count: int, name: Seq<char>, name_width: int) -> Seq<char> {
    seq!['['] + pad_left(decimal((index + 1) as nat), decimal(count as nat).len() as int) + seq![
        ']',
        ' ',
        marker_char(index),
        ' ',
    ] + pad_right(name, name_width) + seq![' ', ' ']
}

/// One legend row of the pie: number, marker, name, share with one decimal,
/// size for humans.
pub open spec fn legend_line(pie: Seq<DiskEntry>, index: int, total: nat) -> Seq<char> {
    legend_head(index, pie.len() as int, pie[index].name@, max_name_width(entry_names(pie)))
        + pad_left(one_decimal(share_tenths(pie[index].bytes as nat, total)), 5) + "%   "@
        + humanized(pie[index].bytes as nat)
}

pub open spec fn legend_lines(pie: Seq<DiskEntry>, total: nat) -> Seq<Seq<char>> {
    Seq::new(pie.len(), |i: int| legend_line(pie, i, total))
}

/// The view of a list of strings.
pub open spec fn string_views(v: Seq<String>) -> Seq<Seq<char>> {
    Seq::new(v.len(), |i: int| v[i]@)
}

fn decimal_chars(n: u64) -> (v: Vec<char>)
    ensures
        v@ == decimal(n as nat),
{
    let mut s = String::new();
    push_decimal(&mut s, n);
    chars_of(s.as_str())
}

fn one_decimal_chars(n: u64) -> (v: Vec<char>)
    ensures
        v@ == one_decimal(n as nat),
{
    let mut s = String::new();
    push_one_decimal(&mut s, n);
    chars_of(s.as_str())
}

/// The widest of the names, in characters.
fn name_column_width(names: &Vec<Vec<char>>) -> (w: usize)
    ensures
        w == max_name_width(names@.map_values(|v: Vec<char>| v@)),
{
    let ghost views = names@.map_values(|v: Vec<char>| v@);
    let mut w: usize = 0;
    let mut i: usize = 0;
    while i < names.len()
        invariant
            i <= names.len(),
            views == names@.map_values(|v: Vec<char>| v@),
            w == max_name_width(views.take(i as int)),
        decreases names.len() - i,
    {
        proof {
            assert(views.take(i + 1).drop_last() == views.take(i as int));
            assert(views.take(i + 1).last() == names@[i as int]@);
        }
        if names[i].len() > w {
            w = names[i].len();
        }
        i = i + 1;
    }
    assert(views.take(names.len() as int) == views);
    w
}

/// The names of the entries as character vectors.
fn names_of(pie: &[DiskEntry]) -> (names: Vec<Vec<char>>)
    ensures
        names@.map_values(|v: Vec<char>| v@) == entry_names(pie@),
{
    let mut names: Vec<Vec<char>> = Vec::new();
    let mut i: usize = 0;
    while i < pie.len()
        invariant
            i <= pie@.len(),
            names@.len() == i,
            forall|k: int| 0 <= k < i ==> (#[trigger] names@[k])@ == pie@[k].name@,
        decreases pie@.len() - i,
    {
        names.push(chars_of(pie[i].name.as_str()));
        i = i + 1;
    }
    assert(names@.map_values(|v: Vec<char>| v@) == entry_names(pie@));
    names
}

/// Appends the `[N] M name  ` head of a legend row.
fn push_legend_head(s: &mut String, index: usize, count_digits: &Vec<char>, count: usize, name: &Vec<char>, name_width: usize)
    requires
        index < count,
        count_digits@ == decimal(count as nat),
    ensures
        final(s)@ == old(s)@ + legend_head(index as int, count as int, name@, name_width as int),
{
    let ghost start = s@;
    push_char(s, '[');
    let num = decimal_chars((index + 1) as u64);
    push_padded_left(s, &num, count_digits.len());
    push_char(s, ']');
    push_char(s, ' ');
    push_char(s, marker_for(index));
    push_char(s, ' ');
    push_padded_right(s, name, name_width);
    push_char(s, ' ');
    push_char(s, ' ');
    assert(s@ == start + legend_head(index as int, count as int, name@, name_width as int));
}

/// The legend of a pie: one row per slice.
fn build_legend(pie: &[DiskEntry], total: u64) -> (lines: Vec<String>)
    requires
        total > 0,
        forall|i: int| 0 <= i < pie@.len() ==> (#[trigger] pie@[i]).bytes <= total,
    ensures
        string_views(lines@) == legend_lines(pie@, total as nat),
{
    let names = names_of(pie);
    let name_width = name_column_width(&names);
    let count_digits = decimal_chars(pie.len() as u64);
    let mut lines: Vec<String> = Vec::new();
    let mut i: usize = 0;
    while i < pie.len()
        invariant
            i <= pie@.len(),
            total > 0,
            forall|k: int| 0 <= k < pie@.len() ==> (#[trigger] pie@[k]).bytes <= total,
            names@.map_values(|v: Vec<char>| v@) == entry_names(pie@),
            name_width == max_name_width(entry_names(pie@)),
            count_digits@ == decimal(pie@.len()),
            lines@.len() == i,
            forall|k: int|
                0 <= k < i ==> (#[trigger] lines@[k])@ == legend_line(pie@, k, total as nat),
        decreases pie@.len() - i,
    {
        let e = &pie[i];
        let mut line = String::new();
        assert(names@[i as int]@ == entry_names(pie@)[i as int]);
        push_legend_head(&mut line, i, &count_digits, pie.len(), &names[i], name_width);
        let pct = one_decimal_chars(share_tenths_exec(e.bytes, total));
        push_padded_left(&mut line, &pct, 5);
        line.append("%   ");
        let size = humanize_bytes(e.bytes);
        line.append(size.as_str());
        lines.push(line);
        i = i + 1;
    }
    assert(string_views(lines@) == legend_lines(pie@, total as nat));
    lines
}

/// One line of progress: a child of the folder being scanned, with its size
/// known (`Some`) or still pending (`None`, shown as a blinking cursor).
#[derive(Debug)]
pub struct ProgressItem {
    pub name: String,
    pub kind: EntryKind,
    pub size: Option<u64>,
}

impl ProgressItem {
    pub fn pending<N: crate::EntryName>(name: N, kind: EntryKind) -> (p: Self)
        ensures
            p.name@ == name.name_view(),
            p.kind == kind,
            p.size is None,
    {
        Self { name: name.into_name(), kind, size: None }
    }

    pub fn known<N: crate::EntryName>(name: N, kind: EntryKind, bytes: u64) -> (p: Self)
        ensures
            p.name@ == name.name_view(),
            p.kind == kind,
            p.size == Some(bytes),
    {
        Self { name: name.into_name(), kind, size: Some(bytes) }
    }
}

/// The cursor that stands for a size still being computed; it blinks from
/// one frame to the next.
pub open spec fn placeholder(frame_idx: int) -> Seq<char> {
    if frame_idx % 2 == 0 {
        seq!['█', '█', '█']
    } else {
        seq!['▒', '▒', '▒']
    }
}

pub open spec fn size_cell(size: Option<u64>, frame_idx: int) -> Seq<char> {
    match size {
        Some(b) => humanized(b as nat),
        None => placeholder(frame_idx),
    }
}

/// Width of the size column: the widest known size, and at least the cursor.
pub open spec fn size_column_width(sizes: Seq<Option<u64>>) -> int
    decreases sizes.len(),
{
    if sizes.len() == 0 {
        3
    } else {
        let rest = size_column_width(sizes.drop_last());
        match sizes.last() {
            Some(b) => if humanized(b as nat).len() > rest {
                humanized(b as nat).len() as int
            } else {
                rest
            },
            None => rest,
        }
    }
}

pub open spec fn item_names(items: Seq<ProgressItem>) -> Seq<Seq<char>> {
    Seq::new(items.len(), |i: int| items[i].name@)
}

pub open spec fn item_sizes(items: Seq<ProgressItem>) -> Seq<Option<u64>> {
    Seq::new(items.len(), |i: int| items[i].size)
}

/// One legend row during a scan: number, marker, name and the size (or the
/// cursor), right-aligned in a common column.
pub open spec fn progress_line(items: Seq<ProgressItem>, index: int, frame_idx: int) -> Seq<char> {
    legend_head(index, items.len() as int, items[index].name@, max_name_width(item_names(items)))
        + pad_left(size_cell(items[index].size, frame_idx), size_column_width(item_sizes(items)))
}

pub open spec fn progress_lines(items: Seq<ProgressItem>, frame_idx: int) -> Seq<Seq<char>> {
    Seq::new(items.len(), |i: int| progress_line(items, i, frame_idx))
}

fn size_cell_chars(size: Option<u64>, frame_idx: usize) -> (v: Vec<char>)
    ensures
        v@ == size_cell(size, frame_idx as int),
{
    match size {
        Some(b) => {
            let h = humanize_bytes(b);
            chars_of(h.as_str())
        },
        None => {
            let c = if frame_idx % 2 == 0 {
                '█'
            } else {
                '▒'
            };
            let v = vec![c, c, c];
            assert(v@ == placeholder(frame_idx as int));
            v
        },
    }
}

fn build_progress_legend(items: &[ProgressItem], frame_idx: usize) -> (lines: Vec<String>)
    ensures
        string_views(lines@) == progress_lines(items@, frame_idx as int),
{
    let mut names: Vec<Vec<char>> = Vec::new();
    let mut cells: Vec<Vec<char>> = Vec::new();
    let mut size_width: usize = 3;
    let mut i: usize = 0;
    while i < items.len()
        invariant
            i <= items@.len(),
            names@.len() == i,
            cells@.len() == i,
            forall|k: int| 0 <= k < i ==> (#[trigger] names@[k])@ == items@[k].name@,
            forall|k: int|
                0 <= k < i ==> (#[trigger] cells@[k])@ == size_cell(items@[k].size, frame_idx as int),
            size_width == size_column_width(item_sizes(items@).take(i as int)),
        decreases items@.len() - i,
    {
        let ghost sz = item_sizes(items@);
        proof {
            assert(sz.take(i + 1).drop_last() == sz.take(i as int));
            assert(sz.take(i + 1).last() == items@[i as int].size);
        }
        names.push(chars_of(items[i].name.as_str()));
        match items[i].size {
            Some(b) => {
                let h = chars_of(humanize_bytes(b).as_str());
                if h.len() > size_width {
                    size_width = h.len();
                }
            },
            None => {},
        }
        cells.push(size_cell_chars(items[i].size, frame_idx));
        i = i + 1;
    }
    assert(item_sizes(items@).take(items@.len() as int) == item_sizes(items@));
    assert(names@.map_values(|v: Vec<char>| v@) == item_names(items@));
    let name_width = name_column_width(&names);
    let count_digits = decimal_chars(items.len() as u64);
    let mut lines: Vec<String> = Vec::new();
    let mut k: usize = 0;
    while k < items.len()
        invariant
            k <= items@.len(),
            names@.len() == items@.len(),
            cells@.len() == items@.len(),
            forall|j: int| 0 <= j < items@.len() ==> (#[trigger] names@[j])@ == items@[j].name@,
            forall|j: int|
                0 <= j < items@.len() ==> (#[trigger] cells@[j])@ == size_cell(
                    items@[j].size,
                    frame_idx as int,
                ),
            size_width == size_column_width(item_sizes(items@)),
            name_width == max_name_width(item_names(items@)),
            count_digits@ == decimal(items@.len()),
            lines@.len() == k,
            forall|j: int|
                0 <= j < k ==> (#[trigger] lines@[j])@ == progress_line(items@, j, frame_idx as int),
        decreases items@.len() - k,
    {
        let mut line = String::new();
        push_legend_head(&mut line, k, &count_digits, items.len(), &names[k], name_width);
        push_padded_left(&mut line, &cells[k], size_width);
        lines.push(line);
        k = k + 1;
    }
    assert(string_views(lines@) == progress_lines(items@, frame_idx as int));
    lines
}

/// A printable view and the click targets of its cells.
pub struct RenderedView {
    pub display: String,
    pub targets: ClickTargets,
}

/// Lines joined, each followed by a newline.
pub open spec fn lines_block(lines: Seq<Seq<char>>) -> Seq<char>
    decreases lines.len(),
{
    if lines.len() == 0 {
        Seq::empty()
    } else {
        lines_block(lines.drop_last()) + lines.last() + seq!['\n']
    }
}

/// Legend rows in the grid: the whole row of legend line `i` maps to slice `i`
/// (for the first `num_slices` lines).
pub open spec fn legend_grid_row(width: int, i: int, num_slices: int) -> Seq<Option<usize>> {
    Seq::new(width as nat, |_c: int| if i < num_slices {
        Some(i as usize)
    } else {
        None
    })
}

/// Stacked view: the top block, a blank line, then the legend.
pub open spec fn stacked_display(top: Seq<Seq<char>>, legend: Seq<Seq<char>>) -> Seq<char> {
    lines_block(top) + seq!['\n'] + lines_block(legend)
}

pub open spec fn stacked_grid(top_grid: Seq<Seq<Option<usize>>>, legend: Seq<Seq<char>>, num_slices: int) -> Seq<Seq<Option<usize>>> {
    top_grid + seq![Seq::<Option<usize>>::empty()] + Seq::new(
        legend.len(),
        |i: int| legend_grid_row(legend[i].len() as int, i, num_slices),
    )
}

pub open spec fn line_or_empty(lines: Seq<Seq<char>>, r: int) -> Seq<char> {
    if 0 <= r < lines.len() {
        lines[r]
    } else {
        Seq::empty()
    }
}

pub open spec fn grid_width(grid: Seq<Seq<Option<usize>>>) -> int {
    if grid.len() > 0 {
        grid[0].len() as int
    } else {
        0
    }
}

pub open spec fn max_int(a: int, b: int) -> int {
    if a > b {
        a
    } else {
        b
    }
}

/// Gap between the top block and the legend in the side-by-side view.
pub open spec fn gap_width() -> int {
    4
}

/// Row `r` of the side-by-side view: the top line padded to the block's width,
/// the gap, the legend line; trailing whitespace removed.
pub open spec fn side_by_side_text(top: Seq<Seq<char>>, width: int, legend: Seq<Seq<char>>, r: int) -> Seq<char> {
    let t = line_or_empty(top, r);
    trim_end(t + spaces(width - t.len()) + spaces(gap_width()) + line_or_empty(legend, r))
}

pub open spec fn side_by_side_rows(top: Seq<Seq<char>>, legend: Seq<Seq<char>>) -> int {
    max_int(top.len() as int, legend.len() as int)
}

pub open spec fn side_by_side_display(top: Seq<Seq<char>>, top_grid: Seq<Seq<Option<usize>>>, legend: Seq<Seq<char>>) -> Seq<char> {
    lines_block(
        Seq::new(
            side_by_side_rows(top, legend) as nat,
            |r: int| side_by_side_text(top, grid_width(top_grid), legend, r),
        ),
    )
}

/// Row `r` of the side-by-side grid: the top block's cells (or blanks past its
/// rows), the gap, then the legend line mapped to slice `r`.
pub open spec fn side_by_side_grid_row(top_grid: Seq<Seq<Option<usize>>>, legend: Seq<Seq<char>>, num_slices: int, r: int) -> Seq<Option<usize>> {
    let w = grid_width(top_grid);
    let left = if r < top_grid.len() {
        top_grid[r]
    } else {
        Seq::new(w as nat, |_c: int| None::<usize>)
    };
    left + Seq::new(gap_width() as nat, |_c: int| None::<usize>) + legend_grid_row(
        line_or_empty(legend, r).len() as int,
        r,
        num_slices,
    )
}

pub open spec fn side_by_side_grid(top: Seq<Seq<char>>, top_grid: Seq<Seq<Option<usize>>>, legend: Seq<Seq<char>>, num_slices: int) -> Seq<Seq<Option<usize>>> {
    Seq::new(
        side_by_side_rows(top, legend) as nat,
        |r: int| side_by_side_grid_row(top_grid, legend, num_slices, r),
    )
}

fn none_row(n: usize) -> (v: Vec<Option<usize>>)
    ensures
        v@ == Seq::new(n as nat, |_c: int| None::<usize>),
{
    let mut v: Vec<Option<usize>> = Vec::new();
    let mut i: usize = 0;
    while i < n
        invariant
            i <= n,
            v@ == Seq::new(i as nat, |_c: int| None::<usize>),
        decreases n - i,
    {
        v.push(None);
        i = i + 1;
    }
    v
}

fn legend_row(width: usize, i: usize, num_slices: usize) -> (v: Vec<Option<usize>>)
    ensures
        v@ == legend_grid_row(width as int, i as int, num_slices as int),
{
    let cell = if i < num_slices {
        Some(i)
    } else {
        None
    };
    let mut v: Vec<Option<usize>> = Vec::new();
    let mut k: usize = 0;
    while k < width
        invariant
            k <= width,
            v@ == Seq::new(k as nat, |_c: int| cell),
        decreases width - k,
    {
        v.push(cell);
        k = k + 1;
    }
    v
}

/// Appends a line and its newline.
fn push_line(display: &mut String, line: &Vec<char>)
    ensures
        final(display)@ == old(display)@ + line@ + seq!['\n'],
{
    push_chars(display, line);
    push_char(display, '\n');
}

proof fn lemma_lines_block_push(lines: Seq<Seq<char>>, l: Seq<char>)
    ensures
        lines_block(lines.push(l)) == lines_block(lines) + l + seq!['\n'],
{
    assert(lines.push(l).drop_last() == lines);
}

fn compose_stacked(top: &Vec<String>, top_grid: Vec<Vec<Option<usize>>>, legend: &Vec<String>, num_slices: usize) -> (v: RenderedView)
    ensures
        v.display@ == stacked_display(string_views(top@), string_views(legend@)),
        v.targets.grid() == stacked_grid(
            grid_view(top_grid@),
            string_views(legend@),
            num_slices as int,
        ),
{
    let mut display = String::new();
    let mut i: usize = 0;
    while i < top.len()
        invariant
            i <= top@.len(),
            display@ == lines_block(string_views(top@).take(i as int)),
        decreases top@.len() - i,
    {
        let line = chars_of(top[i].as_str());
        push_line(&mut display, &line);
        proof {
            let tv = string_views(top@);
            assert(tv.take(i + 1) == tv.take(i as int).push(tv[i as int]));
            lemma_lines_block_push(tv.take(i as int), tv[i as int]);
        }
        i = i + 1;
    }
    assert(string_views(top@).take(top@.len() as int) == string_views(top@));
    push_char(&mut display, '\n');
    let ghost head = display@;
    let mut cells = top_grid;
    let ghost top_cells = grid_view(cells@);
    cells.push(Vec::new());
    let mut k: usize = 0;
    while k < legend.len()
        invariant
            k <= legend@.len(),
            display@ == head + lines_block(string_views(legend@).take(k as int)),
            grid_view(cells@) == top_cells + seq![Seq::<Option<usize>>::empty()] + Seq::new(
                k as nat,
                |i: int| legend_grid_row(string_views(legend@)[i].len() as int, i, num_slices as int),
            ),
        decreases legend@.len() - k,
    {
        let line = chars_of(legend[k].as_str());
        push_line(&mut display, &line);
        let row = legend_row(line.len(), k, num_slices);
        let ghost before = cells@;
        cells.push(row);
        proof {
            assert(grid_view(cells@) =~= grid_view(before).push(row@));
            let lv = string_views(legend@);
            assert(lv.take(k + 1) == lv.take(k as int).push(lv[k as int]));
            lemma_lines_block_push(lv.take(k as int), lv[k as int]);
            assert(grid_view(cells@) =~= top_cells + seq![Seq::<Option<usize>>::empty()] + Seq::new(
                (k + 1) as nat,
                |i: int| legend_grid_row(lv[i].len() as int, i, num_slices as int),
            ));
        }
        k = k + 1;
    }
    assert(string_views(legend@).take(legend@.len() as int) == string_views(legend@));
    RenderedView { display, targets: ClickTargets { cells } }
}

fn compose_side_by_side(top: &Vec<String>, top_grid: &Vec<Vec<Option<usize>>>, legend: &Vec<String>, num_slices: usize) -> (v: RenderedView)
    ensures
        v.display@ == side_by_side_display(
            string_views(top@),
            grid_view(top_grid@),
            string_views(legend@),
        ),
        v.targets.grid() == side_by_side_grid(
            string_views(top@),
            grid_view(top_grid@),
            string_views(legend@),
            num_slices as int,
        ),
{
    let ghost tv = string_views(top@);
    let ghost lv = string_views(legend@);
    let ghost gv = grid_view(top_grid@);
    let width: usize = if top_grid.len() > 0 {
        top_grid[0].len()
    } else {
        0
    };
    let total_rows: usize = if top.len() > legend.len() {
        top.len()
    } else {
        legend.len()
    };
    let mut display = String::new();
    let mut cells: Vec<Vec<Option<usize>>> = Vec::new();
    let mut r: usize = 0;
    while r < total_rows
        invariant
            tv == string_views(top@),
            lv == string_views(legend@),
            gv == grid_view(top_grid@),
            width == grid_width(gv),
            total_rows == side_by_side_rows(tv, lv),
            r <= total_rows,
            display@ == lines_block(
                Seq::new(r as nat, |i: int| side_by_side_text(tv, width as int, lv, i)),
            ),
            grid_view(cells@) == Seq::new(
                r as nat,
                |i: int| side_by_side_grid_row(gv, lv, num_slices as int, i),
            ),
        decreases total_rows - r,
    {
        let top_text: Vec<char> = if r < top.len() {
            chars_of(top[r].as_str())
        } else {
            Vec::new()
        };
        let legend_text: Vec<char> = if r < legend.len() {
            chars_of(legend[r].as_str())
        } else {
            Vec::new()
        };
        assert(top_text@ == line_or_empty(tv, r as int));
        assert(legend_text@ == line_or_empty(lv, r as int));
        let mut composed = String::new();
        push_chars(&mut composed, &top_text);
        let pad = if width > top_text.len() {
            width - top_text.len()
        } else {
            0
        };
        push_spaces(&mut composed, pad);
        push_spaces(&mut composed, 4);
        push_chars(&mut composed, &legend_text);
        assert(spaces(pad as int) == spaces(width - top_text@.len()));
        let composed_chars = chars_of(composed.as_str());
        let shown = trimmed_end(&composed_chars);
        push_line(&mut display, &shown);
        let mut row_cells: Vec<Option<usize>> = if r < top_grid.len() {
            top_grid[r].clone()
        } else {
            none_row(width)
        };
        proof {
            if r < top_grid@.len() {
                assert(row_cells@ == gv[r as int]);
            }
        }
        let mut gap = none_row(4);
        row_cells.append(&mut gap);
        let mut tail = legend_row(legend_text.len(), r, num_slices);
        row_cells.append(&mut tail);
        let ghost before = cells@;
        let ghost new_row = row_cells@;
        assert(new_row == side_by_side_grid_row(gv, lv, num_slices as int, r as int));
        cells.push(row_cells);
        proof {
            assert(grid_view(cells@) =~= grid_view(before).push(new_row));
            let texts = Seq::new(r as nat, |i: int| side_by_side_text(tv, width as int, lv, i));
            let texts2 = Seq::new((r + 1) as nat, |i: int| side_by_side_text(tv, width as int, lv, i));
            assert(texts2 == texts.push(side_by_side_text(tv, width as int, lv, r as int)));
            lemma_lines_block_push(texts, side_by_side_text(tv, width as int, lv, r as int));
            assert(grid_view(cells@) =~= Seq::new(
                (r + 1) as nat,
                |i: int| side_by_side_grid_row(gv, lv, num_slices as int, i),
            ));
        }
        r = r + 1;
    }
    RenderedView { display, targets: ClickTargets { cells } }
}

/// For each cell of the pie's bounding box, a key that orders the cell's angle
/// (clockwise from 12 o'clock) among the slice boundaries; and, for each slice,
/// the key of the angle where it ends. A cell inside the disc belongs to the
/// first slice whose end key is above the cell's key (the last slice when none
/// is). The keys come from floating-point trigonometry, which the caller does.
pub struct SliceAngles {
    pub cells: Vec<Vec<u64>>,
    pub bounds: Vec<u64>,
}

impl SliceAngles {
    pub open spec fn cell_keys(&self) -> Seq<Seq<u64>> {
        self.cells@.map_values(|r: Vec<u64>| r@)
    }

    /// One key per cell of the box of a pie of `radius`, and one bound per slice.
    pub open spec fn fits(&self, radius: int, slices: int) -> bool {
        &&& self.cells@.len() == pie_height(radius)
        &&& forall|r: int| 0 <= r < self.cells@.len() ==> (#[trigger] self.cells@[r])@.len() == pie_width(radius)
        &&& self.bounds@.len() == slices
    }
}

/// `s` is the first slice whose end lies above `key`, or the last slice.
pub open spec fn is_slice_of(key: u64, bounds: Seq<u64>, s: int) -> bool {
    &&& 0 <= s < bounds.len()
    &&& forall|j: int| 0 <= j < s ==> key >= #[trigger] bounds[j]
    &&& (s == bounds.len() - 1 || key < bounds[s])
}

pub open spec fn slice_of(key: u64, bounds: Seq<u64>) -> int {
    choose|s: int| is_slice_of(key, bounds, s)
}

proof fn lemma_slice_of_unique(key: u64, bounds: Seq<u64>, s: int)
    requires
        is_slice_of(key, bounds, s),
    ensures
        slice_of(key, bounds) == s,
{
    let t = slice_of(key, bounds);
    assert(is_slice_of(key, bounds, t));
    if t < s {
        assert(key >= bounds[t]);
    } else if t > s {
        assert(key >= bounds[s]);
    }
}

/// The slice drawn in a cell of the pie, if the cell is inside the disc.
pub open spec fn pie_cell(keys: Seq<Seq<u64>>, bounds: Seq<u64>, radius: int, row: int, col: int) -> Option<usize> {
    if in_disc(radius, row, col) {
        Some(slice_of(keys[row][col], bounds) as usize)
    } else {
        None
    }
}

pub open spec fn pie_grid(keys: Seq<Seq<u64>>, bounds: Seq<u64>, radius: int) -> Seq<Seq<Option<usize>>> {
    Seq::new(
        pie_height(radius) as nat,
        |row: int| Seq::new(pie_width(radius) as nat, |col: int| pie_cell(keys, bounds, radius, row, col)),
    )
}

/// A grid row drawn with the slice markers, blanks where no slice is.
pub open spec fn row_chars(row: Seq<Option<usize>>) -> Seq<char> {
    Seq::new(row.len(), |c: int| match row[c] {
        Some(i) => marker_char(i as int),
        None => ' ',
    })
}

/// The printable pie: each grid row drawn, trailing blanks removed.
pub open spec fn pie_lines(grid: Seq<Seq<Option<usize>>>) -> Seq<Seq<char>> {
    Seq::new(grid.len(), |r: int| trim_end(row_chars(grid[r])))
}

fn slice_for_key(key: u64, bounds: &Vec<u64>) -> (s: usize)
    requires
        bounds@.len() > 0,
    ensures
        s == slice_of(key, bounds@),
{
    let mut i: usize = 0;
    let last = bounds.len() - 1;
    while i < last && key >= bounds[i]
        invariant
            i <= last,
            last == bounds@.len() - 1,
            forall|j: int| 0 <= j < i ==> key >= #[trigger] bounds@[j],
        decreases bounds@.len() - i,
    {
        i = i + 1;
    }
    proof {
        lemma_slice_of_unique(key, bounds@, i as int);
    }
    i
}

/// Draws the pie: marker lines (trailing blanks trimmed) and the full-width
/// grid of slice indices, `None` outside the disc.
fn draw_pie(angles: &SliceAngles, radius: usize) -> (r: (Vec<String>, Vec<Vec<Option<usize>>>))
    requires
        frame_fits(radius as int),
        angles.bounds@.len() > 0,
        angles.fits(radius as int, angles.bounds@.len() as int),
    ensures
        grid_view(r.1@) == pie_grid(angles.cell_keys(), angles.bounds@, radius as int),
        string_views(r.0@) == pie_lines(pie_grid(angles.cell_keys(), angles.bounds@, radius as int)),
{
    proof {
        lemma_radius_small(radius as int);
        assert(2 * (2 * radius + 1) <= usize::MAX) by (nonlinear_arith)
            requires
                (2 * radius + 1) * (2 * (2 * radius + 1)) <= usize::MAX,
                radius >= 0,
        ;
    }
    let ghost keys = angles.cell_keys();
    let ghost bounds = angles.bounds@;
    let ghost grid = pie_grid(keys, bounds, radius as int);
    let height: usize = 2 * radius + 1;
    let width: usize = 2 * height;
    let mut lines: Vec<String> = Vec::new();
    let mut cells: Vec<Vec<Option<usize>>> = Vec::new();
    let mut row: usize = 0;
    while row < height
        invariant
            frame_fits(radius as int),
            height == pie_height(radius as int),
            width == pie_width(radius as int),
            keys == angles.cell_keys(),
            bounds == angles.bounds@,
            bounds.len() > 0,
            angles.fits(radius as int, bounds.len() as int),
            grid == pie_grid(keys, bounds, radius as int),
            row <= height,
            lines@.len() == row,
            cells@.len() == row,
            forall|k: int| 0 <= k < row ==> (#[trigger] cells@[k])@ == grid[k],
            forall|k: int| 0 <= k < row ==> (#[trigger] lines@[k])@ == trim_end(row_chars(grid[k])),
        decreases height - row,
    {
        let mut line_chars: Vec<char> = Vec::new();
        let mut row_cells: Vec<Option<usize>> = Vec::new();
        let mut col: usize = 0;
        assert(angles.cells@[row as int]@.len() == width);
        while col < width
            invariant
                frame_fits(radius as int),
                height == pie_height(radius as int),
                width == pie_width(radius as int),
                keys == angles.cell_keys(),
                bounds == angles.bounds@,
                bounds.len() > 0,
                angles.cells@[row as int]@.len() == width,
                angles.cells@.len() == height,
                grid == pie_grid(keys, bounds, radius as int),
                row < height,
                col <= width,
                row_cells@ == grid[row as int].take(col as int),
                line_chars@ == row_chars(grid[row as int]).take(col as int),
            decreases width - col,
        {
            let cell = if cell_in_disc(radius, row, col) {
                let key = angles.cells[row][col];
                assert(keys[row as int] == angles.cells@[row as int]@);
                assert(key == keys[row as int][col as int]);
                Some(slice_for_key(key, &angles.bounds))
            } else {
                None
            };
            let ch = match cell {
                Some(i) => marker_for(i),
                None => ' ',
            };
            proof {
                assert(cell == grid[row as int][col as int]);
                assert(grid[row as int].take(col + 1) == grid[row as int].take(col as int).push(cell));
                let rc = row_chars(grid[row as int]);
                assert(rc.take(col + 1) == rc.take(col as int).push(ch));
            }
            row_cells.push(cell);
            line_chars.push(ch);
            col = col + 1;
        }
        proof {
            assert(grid[row as int].take(width as int) == grid[row as int]);
            assert(row_chars(grid[row as int]).take(width as int) == row_chars(grid[row as int]));
        }
        let trimmed = trimmed_end(&line_chars);
        let mut line = String::new();
        push_chars(&mut line, &trimmed);
        lines.push(line);
        cells.push(row_cells);
        row = row + 1;
    }
    proof {
        assert(grid_view(cells@) =~= grid);
        assert(string_views(lines@) =~= pie_lines(grid));
    }
    (lines, cells)
}

pub const DEFAULT_PIE_RADIUS: usize = 7;

/// Shown for a pie with no slices.
pub open spec fn empty_pie_message() -> Seq<char> {
    "(camembert vide — aucun dossier à afficher)"@
}

/// Shown for a pie whose slices weigh nothing.
pub open spec fn zero_pie_message() -> Seq<char> {
    "(camembert vide — taille totale nulle)"@
}

/// The view of a non-empty pie of non-zero total with a layout: the drawn pie
/// and its legend, stacked or side by side.
pub open spec fn pie_view_matches(pie: Seq<DiskEntry>, layout: Layout, keys: Seq<Seq<u64>>, bounds: Seq<u64>, display: Seq<char>, grid: Seq<Seq<Option<usize>>>) -> bool {
    let total = sum_bytes(pie) as nat;
    let g = pie_grid(keys, bounds, layout.radius as int);
    let lines = pie_lines(g);
    let legend = legend_lines(pie, total);
    if layout.side_by_side {
        &&& display == side_by_side_display(lines, g, legend)
        &&& grid == side_by_side_grid(lines, g, legend, pie.len() as int)
    } else {
        &&& display == stacked_display(lines, legend)
        &&& grid == stacked_grid(g, legend, pie.len() as int)
    }
}

/// What `render_with_layout` shows for a pie.
pub open spec fn render_matches(pie: Seq<DiskEntry>, layout: Layout, angles: SliceAngles, v: RenderedView) -> bool {
    if pie.len() == 0 {
        v.display@ == empty_pie_message() && v.targets.grid().len() == 0
    } else if sum_bytes(pie) == 0 {
        v.display@ == zero_pie_message() && v.targets.grid().len() == 0
    } else {
        pie_view_matches(pie, layout, angles.cell_keys(), angles.bounds@, v.display@, v.targets.grid())
    }
}

/// Each slice of a pie weighs no more than the whole pie.
proof fn lemma_entry_within_total(pie: Seq<DiskEntry>, i: int)
    requires
        0 <= i < pie.len(),
    ensures
        pie[i].bytes <= sum_bytes(pie),
{
    crate::aggregator::lemma_sum_remove(pie, i);
    crate::aggregator::lemma_sum_nonneg(pie.remove(i));
}

/// Layout-aware renderer: `display` is the printable text, `targets` maps its
/// cells to slice indices so the UI can colour cells and resolve clicks.
pub fn render_with_layout(pie: &[DiskEntry], layout: &Layout, angles: &SliceAngles) -> (v: RenderedView)
    requires
        sum_bytes(pie@) <= u64::MAX,
        pie@.len() > 0 && sum_bytes(pie@) > 0 ==> frame_fits(layout.radius as int) && angles.fits(
            layout.radius as int,
            pie@.len() as int,
        ),
    ensures
        render_matches(pie@, *layout, *angles, v),
{
    if pie.len() == 0 {
        let display = "(camembert vide — aucun dossier à afficher)".to_owned();
        let v = RenderedView { display, targets: ClickTargets::empty() };
        return v;
    }
    let total = total_bytes(pie);
    if total == 0 {
        let display = "(camembert vide — taille totale nulle)".to_owned();
        return RenderedView { display, targets: ClickTargets::empty() };
    }
    proof {
        assert forall|i: int| 0 <= i < pie@.len() implies (#[trigger] pie@[i]).bytes <= total by {
            lemma_entry_within_total(pie@, i);
        }
    }
    let (pie_text, pie_cells) = draw_pie(angles, layout.radius);
    let legend = build_legend(pie, total);
    if layout.side_by_side {
        compose_side_by_side(&pie_text, &pie_cells, &legend, pie.len())
    } else {
        compose_stacked(&pie_text, pie_cells, &legend, pie.len())
    }
}

/// Renders with the stacked layout at the default radius.
pub fn render_with_targets(pie: &[DiskEntry], angles: &SliceAngles) -> (v: RenderedView)
    requires
        sum_bytes(pie@) <= u64::MAX,
        pie@.len() > 0 && sum_bytes(pie@) > 0 ==> angles.fits(DEFAULT_PIE_RADIUS as int, pie@.len() as int),
    ensures
        render_matches(pie@, Layout { radius: DEFAULT_PIE_RADIUS, side_by_side: false }, *angles, v),
{
    assert(DEFAULT_PIE_RADIUS == 7);
    assert((2 * 7 + 1) * (2 * (2 * 7 + 1)) == 450int) by (nonlinear_arith);
    assert(frame_fits(DEFAULT_PIE_RADIUS as int));
    render_with_layout(pie, &Layout { radius: DEFAULT_PIE_RADIUS, side_by_side: false }, angles)
}

/// Plain render with the stacked layout at the default radius.
pub fn render(pie: &[DiskEntry], angles: &SliceAngles) -> (s: String)
    requires
        sum_bytes(pie@) <= u64::MAX,
        pie@.len() > 0 && sum_bytes(pie@) > 0 ==> angles.fits(DEFAULT_PIE_RADIUS as int, pie@.len() as int),
    ensures
        exists|v: RenderedView|
            render_matches(pie@, Layout { radius: DEFAULT_PIE_RADIUS, side_by_side: false }, *angles, v)
                && s@ == v.display@,
{
    let v = render_with_targets(pie, angles);
    v.display
}

/// The spinner's lines for a frame.
pub open spec fn spinner_lines(frame_idx: int, radius: int) -> Seq<Seq<char>> {
    Seq::new(pie_height(radius) as nat, |r: int| spinner_row(frame_idx, radius, r))
}

/// The spinner is not clickable: a grid of the pie's size with no targets.
pub open spec fn blank_grid(radius: int) -> Seq<Seq<Option<usize>>> {
    Seq::new(
        pie_height(radius) as nat,
        |_r: int| Seq::new(pie_width(radius) as nat, |_c: int| None::<usize>),
    )
}

/// The spinner where the pie will be, with `legend` beside or below it.
pub open spec fn spinner_view_matches(layout: Layout, frame_idx: int, legend: Seq<Seq<char>>, num_slices: int, v: RenderedView) -> bool {
    let lines = spinner_lines(frame_idx, layout.radius as int);
    let g = blank_grid(layout.radius as int);
    if layout.side_by_side {
        &&& v.display@ == side_by_side_display(lines, g, legend)
        &&& v.targets.grid() == side_by_side_grid(lines, g, legend, num_slices)
    } else {
        &&& v.display@ == stacked_display(lines, legend)
        &&& v.targets.grid() == stacked_grid(g, legend, num_slices)
    }
}

/// The total used for a preview legend: the pie's total, at least 1.
pub open spec fn preview_total(pie: Seq<DiskEntry>) -> nat {
    if sum_bytes(pie) > 0 {
        sum_bytes(pie) as nat
    } else {
        1
    }
}

fn spinner_block(layout: &Layout, frame_idx: usize) -> (r: (Vec<String>, Vec<Vec<Option<usize>>>))
    requires
        frame_fits(layout.radius as int),
    ensures
        string_views(r.0@) == spinner_lines(frame_idx as int, layout.radius as int),
        grid_view(r.1@) == blank_grid(layout.radius as int),
{
    proof {
        lemma_radius_small(layout.radius as int);
        assert(2 * (2 * layout.radius + 1) <= usize::MAX) by (nonlinear_arith)
            requires
                (2 * layout.radius + 1) * (2 * (2 * layout.radius + 1)) <= usize::MAX,
                layout.radius >= 0,
        ;
    }
    let lines = frame(frame_idx, layout.radius);
    let width: usize = 2 * (2 * layout.radius + 1);
    let mut grid: Vec<Vec<Option<usize>>> = Vec::new();
    let mut i: usize = 0;
    while i < lines.len()
        invariant
            i <= lines@.len(),
            lines@.len() == pie_height(layout.radius as int),
            width == pie_width(layout.radius as int),
            grid_view(grid@) == Seq::new(
                i as nat,
                |_r: int| Seq::new(width as nat, |_c: int| None::<usize>),
            ),
        decreases lines@.len() - i,
    {
        let row = none_row(width);
        let ghost before = grid@;
        grid.push(row);
        proof {
            assert(grid_view(grid@) =~= grid_view(before).push(row@));
            assert(grid_view(grid@) =~= Seq::new(
                (i + 1) as nat,
                |_r: int| Seq::new(width as nat, |_c: int| None::<usize>),
            ));
        }
        i = i + 1;
    }
    assert(string_views(lines@) =~= spinner_lines(frame_idx as int, layout.radius as int));
    (lines, grid)
}

/// A frame of the "scan in progress" view: the spinner where the pie will be,
/// and the legend of a previously shown pie (if any) in the legend's place.
pub fn render_scan_view(layout: &Layout, preview_pie: &[DiskEntry], spinner_frame_idx: usize) -> (v: RenderedView)
    requires
        frame_fits(layout.radius as int),
        sum_bytes(preview_pie@) <= u64::MAX,
    ensures
        spinner_view_matches(
            *layout,
            spinner_frame_idx as int,
            if preview_pie@.len() == 0 {
                Seq::empty()
            } else {
                legend_lines(preview_pie@, preview_total(preview_pie@))
            },
            preview_pie@.len() as int,
            v,
        ),
{
    let (lines, grid) = spinner_block(layout, spinner_frame_idx);
    let legend: Vec<String> = if preview_pie.len() == 0 {
        let e: Vec<String> = Vec::new();
        assert(string_views(e@) =~= Seq::<Seq<char>>::empty());
        e
    } else {
        let sum = total_bytes(preview_pie);
        let total = if sum > 0 {
            sum
        } else {
            1
        };
        proof {
            assert forall|i: int| 0 <= i < preview_pie@.len() implies (#[trigger] preview_pie@[i]).bytes
                <= total by {
                lemma_entry_within_total(preview_pie@, i);
            }
        }
        build_legend(preview_pie, total)
    };
    if layout.side_by_side {
        compose_side_by_side(&lines, &grid, &legend, preview_pie.len())
    } else {
        compose_stacked(&lines, grid, &legend, preview_pie.len())
    }
}

/// A frame of the live-progress view: the spinner, and one legend row per
/// child of the folder being scanned, with its size once known.
pub fn render_progress_view(layout: &Layout, items: &[ProgressItem], spinner_frame_idx: usize) -> (v: RenderedView)
    requires
        frame_fits(layout.radius as int),
    ensures
        spinner_view_matches(
            *layout,
            spinner_frame_idx as int,
            progress_lines(items@, spinner_frame_idx as int),
            items@.len() as int,
            v,
        ),
{
    let (lines, grid) = spinner_block(layout, spinner_frame_idx);
    let legend = build_progress_legend(items, spinner_frame_idx);
    if layout.side_by_side {
        compose_side_by_side(&lines, &grid, &legend, items.len())
    } else {
        compose_stacked(&lines, grid, &legend, items.len())
    }
}

/// Every entry of a listing as a pending progress item.
pub open spec fn skeleton_items(skeleton: Seq<DiskEntry>) -> Seq<ProgressItem> {
    Seq::new(
        skeleton.len(),
        |i: int| ProgressItem { name: skeleton[i].name, kind: skeleton[i].kind, size: None },
    )
}

/// A progress frame in which every item is still pending.
pub fn render_skeleton_view(layout: &Layout, skeleton: &[DiskEntry], spinner_frame_idx: usize) -> (v: RenderedView)
    requires
        frame_fits(layout.radius as int),
    ensures
        spinner_view_matches(
            *layout,
            spinner_frame_idx as int,
            progress_lines(skeleton_items(skeleton@), spinner_frame_idx as int),
            skeleton@.len() as int,
            v,
        ),
{
    let mut items: Vec<ProgressItem> = Vec::new();
    let mut i: usize = 0;
    while i < skeleton.len()
        invariant
            i <= skeleton@.len(),
            items@ == skeleton_items(skeleton@).take(i as int),
        decreases skeleton@.len() - i,
    {
        let e = &skeleton[i];
        let item = ProgressItem { name: e.name.clone(), kind: e.kind, size: None };
        items.push(item);
        proof {
            assert(skeleton_items(skeleton@).take(i + 1) == skeleton_items(skeleton@).take(
                i as int,
            ).push(item));
        }
        i = i + 1;
    }
    assert(skeleton_items(skeleton@).take(skeleton@.len() as int) == skeleton_items(skeleton@));
    render_progress_view(layout, items.as_slice(), spinner_frame_idx)
}

/// The widest legend line of a pie; 0 for no slices.
pub open spec fn legend_width_of(pie: Seq<DiskEntry>) -> int {
    if pie.len() == 0 {
        0
    } else {
        max_name_width(legend_lines(pie, preview_total(pie)))
    }
}

/// Width of the widest legend line of a pie, so the layout can reserve it.
pub fn legend_width(pie: &[DiskEntry]) -> (w: usize)
    requires
        sum_bytes(pie@) <= u64::MAX,
    ensures
        w == legend_width_of(pie@),
{
    if pie.len() == 0 {
        return 0;
    }
    let sum = total_bytes(pie);
    let total = if sum > 0 {
        sum
    } else {
        1
    };
    proof {
        assert forall|i: int| 0 <= i < pie@.len() implies (#[trigger] pie@[i]).bytes <= total by {
            lemma_entry_within_total(pie@, i);
        }
    }
    let lines = build_legend(pie, total);
    let mut widths: Vec<Vec<char>> = Vec::new();
    let mut i: usize = 0;
    while i < lines.len()
        invariant
            i <= lines@.len(),
            widths@.len() == i,
            forall|k: int| 0 <= k < i ==> (#[trigger] widths@[k])@ == lines@[k]@,
        decreases lines@.len() - i,
    {
        widths.push(chars_of(lines[i].as_str()));
        i = i + 1;
    }
    assert(widths@.map_values(|v: Vec<char>| v@) =~= string_views(lines@));
    name_column_width(&widths)
}

/// Trailing blanks are cut only after the last visible character.
proof fn lemma_trim_end_keeps_visible(s: Seq<char>, c: int)
    requires
        0 <= c < s.len(),
        !is_whitespace(s[c]),
    ensures
        c < trim_end(s).len(),
        trim_end(s)[c] == s[c],
    decreases s.len(),
{
    if is_whitespace(s.last()) {
        assert(c < s.len() - 1);
        lemma_trim_end_keeps_visible(s.drop_last(), c);
    }
}

/// Where legend line `i` of a pie of `n` slices shows its marker: after the
/// opening bracket, the right-aligned slice number, the closing bracket and a
/// blank.
pub open spec fn legend_marker_at(i: int, n: int) -> int {
    pad_left(decimal((i + 1) as nat), decimal(n as nat).len() as int).len() + 3int
}

/// The pie and its legend agree: every cell drawn for slice `i` shows the
/// very marker that legend line `i` shows for that slice.
pub proof fn lemma_pie_cells_show_their_legend_marker(
    pie: Seq<DiskEntry>,
    total: nat,
    keys: Seq<Seq<u64>>,
    bounds: Seq<u64>,
    radius: int,
    r: int,
    c: int,
)
    requires
        0 <= r < pie_height(radius),
        0 <= c < pie_width(radius),
        pie_grid(keys, bounds, radius)[r][c] matches Some(i) && i < pie.len(),
    ensures
        ({
            let i = pie_grid(keys, bounds, radius)[r][c]->0 as int;
            let line = pie_lines(pie_grid(keys, bounds, radius))[r];
            let legend = legend_lines(pie, total)[i];
            &&& c < line.len()
            &&& 0 <= legend_marker_at(i, pie.len() as int) < legend.len()
            &&& line[c] == legend[legend_marker_at(i, pie.len() as int)]
        }),
{
    let g = pie_grid(keys, bounds, radius);
    let i = g[r][c]->0 as int;
    let row = row_chars(g[r]);
    assert(row[c] == marker_char(i));
    assert(!is_whitespace(marker_char(i)));
    lemma_trim_end_keeps_visible(row, c);
    let n = pie.len() as int;
    let pad = pad_left(decimal((i + 1) as nat), decimal(n as nat).len() as int);
    let head = legend_head(i, n, pie[i].name@, max_name_width(entry_names(pie)));
    let front = seq!['['] + pad;
    let mid = seq![']', ' ', marker_char(i), ' '];
    assert(front.len() == pad.len() + 1);
    assert((front + mid)[front.len() + 2int] == marker_char(i));
    assert(head == front + mid + pad_right(pie[i].name@, max_name_width(entry_names(pie))) + seq![' ', ' ']);
    assert(head[front.len() + 2int] == marker_char(i));
    let line = legend_line(pie, i, total);
    assert(line == head + pad_left(one_decimal(share_tenths(pie[i].bytes as nat, total)), 5) + "%   "@
        + humanized(pie[i].bytes as nat));
    assert(line[front.len() + 2int] == marker_char(i));
    assert(legend_lines(pie, total)[i] == line);
}

} // verus!
