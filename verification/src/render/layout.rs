//! Picks the pie's radius and whether the legend sits beside or below it.

use vstd::prelude::*;

verus! {

/// Geometry chosen for a given terminal size.
///
/// `radius` controls the pie's size; pie height is `2 * radius + 1` rows and pie
/// width is `2 * (2 * radius + 1)` columns. When `side_by_side` is true, the
/// legend sits to the right of the pie; otherwise it sits below.
#[derive(Debug, Clone, Copy, PartialEq, Eq, Structural)]
pub struct Layout {
    pub radius: usize,
    pub side_by_side: bool,
}

/// Smallest radius that still draws a recognisable pie.
pub const MIN_RADIUS: usize = 4;

/// Cap on radius so huge terminals don't produce hard-to-read output.
pub const MAX_RADIUS: usize = 60;

pub const HEADER_ROWS: usize = 1;

pub const FOOTER_ROWS: usize = 2;

pub const LEGEND_BLANK_LINE: usize = 1;

pub const SIDE_BY_SIDE_GAP: usize = 4;

pub open spec fn sat_sub(a: int, b: int) -> int {
    if a > b {
        a - b
    } else {
        0
    }
}

pub open spec fn min_int(a: int, b: int) -> int {
    if a < b {
        a
    } else {
        b
    }
}

pub open spec fn clamp_int(x: int, lo: int, hi: int) -> int {
    if x < lo {
        lo
    } else if x > hi {
        hi
    } else {
        x
    }
}

/// Pie height for a radius.
pub open spec fn pie_height(radius: int) -> int {
    2 * radius + 1
}

/// Pie width for a radius: cells are about twice as tall as wide.
pub open spec fn pie_width(radius: int) -> int {
    2 * pie_height(radius)
}

/// Returns `(width, height)` of the pie for a given `radius`.
pub fn pie_dimensions(radius: usize) -> (dims: (usize, usize))
    requires
        4 * radius + 2 <= usize::MAX,
    ensures
        dims.0 == pie_width(radius as int),
        dims.1 == pie_height(radius as int),
{
    let height = 2 * radius + 1;
    let width = 2 * height;
    (width, height)
}

/// Radius when the legend goes below the pie: header, pie, blank line, one row
/// per slice and the footer must fit in the height.
pub open spec fn stacked_radius(term_height: int, n: int) -> int {
    let available = sat_sub(term_height, HEADER_ROWS + LEGEND_BLANK_LINE + n + FOOTER_ROWS);
    clamp_int(sat_sub(available, 1) / 2, MIN_RADIUS as int, MAX_RADIUS as int)
}

/// Radius when the legend goes beside the pie, if that layout fits: the legend
/// rows and the pie must fit between header and footer, and pie, gap and legend
/// must fit in the width, with a radius of at least `MIN_RADIUS`.
pub open spec fn side_by_side_radius(term_width: int, term_height: int, n: int, legend_width: int) -> Option<int> {
    let v_avail = sat_sub(term_height, HEADER_ROWS + FOOTER_ROWS);
    if v_avail < n {
        None
    } else {
        let r_v = sat_sub(v_avail, 1) / 2;
        let r_h = sat_sub(term_width, SIDE_BY_SIDE_GAP + legend_width + 2) / 4;
        let r = min_int(r_v, r_h);
        if r < MIN_RADIUS {
            None
        } else {
            Some(min_int(r, MAX_RADIUS as int))
        }
    }
}

/// The layout for a terminal: beside when that fits, below otherwise. A slice
/// count of zero counts as one.
pub open spec fn layout_for(term_width: int, term_height: int, num_slices: int, legend_width: int) -> Layout {
    let n = if num_slices < 1 {
        1
    } else {
        num_slices
    };
    match side_by_side_radius(term_width, term_height, n, legend_width) {
        Some(r) => Layout { radius: r as usize, side_by_side: true },
        None => Layout { radius: stacked_radius(term_height, n) as usize, side_by_side: false },
    }
}

/// The inputs on which the computation stays within `usize`.
pub open spec fn layout_inputs_ok(term_height: int, num_slices: int, legend_width: int) -> bool {
    let n = if num_slices < 1 {
        1
    } else {
        num_slices
    };
    &&& num_slices <= usize::MAX - 4
    &&& (legend_width <= usize::MAX - 6 || sat_sub(term_height, 3) < n)
}

fn best_radius_stacked(term_height: usize, n: usize) -> (r: usize)
    requires
        n <= usize::MAX - 4,
    ensures
        r == stacked_radius(term_height as int, n as int),
{
    let available = term_height.saturating_sub(HEADER_ROWS + LEGEND_BLANK_LINE + n + FOOTER_ROWS);
    let r = available.saturating_sub(1) / 2;
    if r < MIN_RADIUS {
        MIN_RADIUS
    } else if r > MAX_RADIUS {
        MAX_RADIUS
    } else {
        r
    }
}

fn best_radius_side_by_side(term_width: usize, term_height: usize, n: usize, legend_width: usize) -> (r: Option<usize>)
    requires
        legend_width <= usize::MAX - 6 || sat_sub(term_height as int, 3) < n,
    ensures
        r matches Some(x) ==> side_by_side_radius(term_width as int, term_height as int, n as int, legend_width as int) == Some(x as int),
        r is None ==> side_by_side_radius(term_width as int, term_height as int, n as int, legend_width as int) is None,
{
    let v_avail = term_height.saturating_sub(HEADER_ROWS + FOOTER_ROWS);
    if v_avail < n {
        return None;
    }
    let r_v = v_avail.saturating_sub(1) / 2;
    let h_budget = term_width.saturating_sub(SIDE_BY_SIDE_GAP + legend_width + 2);
    let r_h = h_budget / 4;
    let r = if r_v < r_h {
        r_v
    } else {
        r_h
    };
    if r < MIN_RADIUS {
        return None;
    }
    Some(if r < MAX_RADIUS {
        r
    } else {
        MAX_RADIUS
    })
}

/// Picks a `Layout` that fills as much of the terminal as possible.
///
/// `legend_width` is the widest line of the legend, in characters.
pub fn compute_layout(term_width: u16, term_height: u16, num_slices: usize, legend_width: usize) -> (l: Layout)
    requires
        layout_inputs_ok(term_height as int, num_slices as int, legend_width as int),
    ensures
        l == layout_for(term_width as int, term_height as int, num_slices as int, legend_width as int),
{
    let term_width = term_width as usize;
    let term_height = term_height as usize;
    let n = if num_slices < 1 {
        1
    } else {
        num_slices
    };
    if let Some(r) = best_radius_side_by_side(term_width, term_height, n, legend_width) {
        return Layout { radius: r, side_by_side: true };
    }
    Layout { radius: best_radius_stacked(term_height, n), side_by_side: false }
}

/// Whatever the terminal, the radius stays between `MIN_RADIUS` and `MAX_RADIUS`.
pub proof fn lemma_radius_in_bounds(term_width: int, term_height: int, num_slices: int, legend_width: int)
    requires
        0 <= term_width,
        0 <= term_height,
        0 <= num_slices,
        0 <= legend_width,
    ensures
        MIN_RADIUS <= layout_for(term_width, term_height, num_slices, legend_width).radius <= MAX_RADIUS,
{
}

/// A side-by-side layout fits the terminal: header, pie and footer fit the
/// height, one legend row per slice fits beside the pie, and pie, gap and legend
/// fit the width.
pub proof fn lemma_side_by_side_fits(term_width: int, term_height: int, num_slices: int, legend_width: int)
    requires
        0 <= term_width,
        0 <= term_height,
        0 <= num_slices,
        0 <= legend_width,
        layout_for(term_width, term_height, num_slices, legend_width).side_by_side,
    ensures
        ({
            let r = layout_for(term_width, term_height, num_slices, legend_width).radius as int;
            &&& pie_width(r) + SIDE_BY_SIDE_GAP + legend_width <= term_width
            &&& HEADER_ROWS + pie_height(r) + FOOTER_ROWS <= term_height
            &&& HEADER_ROWS + num_slices + FOOTER_ROWS <= term_height
        }),
{
}

/// In the stacked layout, more legend rows never grow the pie, and a taller
/// terminal never shrinks it.
pub proof fn lemma_stacked_radius_monotone(h1: int, h2: int, n1: int, n2: int)
    requires
        0 <= h1 <= h2,
        0 <= n2 <= n1,
    ensures
        stacked_radius(h1, n1) <= stacked_radius(h2, n2),
{
}

/// When both fit side by side, a wider legend never grows the pie.
pub proof fn lemma_wider_legend_never_grows_side_by_side_pie(w: int, h: int, n: int, lw1: int, lw2: int)
    requires
        0 <= w,
        0 <= h,
        0 <= lw1 <= lw2,
        side_by_side_radius(w, h, n, lw1) is Some,
        side_by_side_radius(w, h, n, lw2) is Some,
    ensures
        side_by_side_radius(w, h, n, lw2).unwrap() <= side_by_side_radius(w, h, n, lw1).unwrap(),
{
    assert(sat_sub(w, SIDE_BY_SIDE_GAP + lw2 + 2) <= sat_sub(w, SIDE_BY_SIDE_GAP + lw1 + 2));
    let a = sat_sub(w, SIDE_BY_SIDE_GAP + lw2 + 2);
    let b = sat_sub(w, SIDE_BY_SIDE_GAP + lw1 + 2);
    assert(a / 4 <= b / 4) by (nonlinear_arith)
        requires
            0 <= a <= b,
    ;
}

} // verus!
