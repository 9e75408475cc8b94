//! One frame of the "cheese spinner": a disc with one missing twelfth that
//! moves clockwise from frame to frame.
//!
//! Cell `(row, col)` of a frame of radius `r` has its centre at
//! `dx = (col + 0.5) / 2 - r`, `dy = row + 0.5 - r` (cells are twice as tall as
//! wide, `dy` grows downwards). All geometry is done on the integers
//! `a = 4 dx = 2 col + 1 - 4 r` and `b = 4 dy = 4 row + 2 - 4 r`, which are odd
//! multiples of one and two and so never zero: a centre never lies on an axis,
//! nor on a 30° line (whose slope is irrational).

use vstd::prelude::*;
use crate::text::push_char;

verus! {

pub const FRAMES_PER_TURN: usize = 12;

pub const FRAME_DURATION_MS: u64 = 80;

pub const FILLED_CHAR: char = '█';

pub const EMPTY_CHAR: char = ' ';

/// Four times the horizontal offset of a cell centre from the disc centre.
pub open spec fn cell_a(radius: int, col: int) -> int {
    2 * col + 1 - 4 * radius
}

/// Four times the vertical offset (downwards) of a cell centre.
pub open spec fn cell_b(radius: int, row: int) -> int {
    4 * row + 2 - 4 * radius
}

/// The centre lies within the disc of the given radius.
pub open spec fn in_disc(radius: int, row: int, col: int) -> bool {
    let a = cell_a(radius, col);
    let b = cell_b(radius, row);
    a * a + b * b <= 16 * radius * radius
}

/// Which 30° step `[0, 30)`, `[30, 60)` or `[60, 90)` an angle lies in, for an
/// angle whose tangent is `num / den` (both positive).
pub open spec fn third_of_quadrant(num: int, den: int) -> int {
    if 3 * (num * num) < den * den {
        0
    } else if num * num < 3 * (den * den) {
        1
    } else {
        2
    }
}

/// The twelfth of the turn (0 to 11, clockwise from 12 o'clock) in which the
/// direction `(a, b)` points (`b` grows downwards; `a` and `b` non-zero).
pub open spec fn sector_of(a: int, b: int) -> int {
    let ma = if a < 0 {
        -a
    } else {
        a
    };
    let mb = if b < 0 {
        -b
    } else {
        b
    };
    if a > 0 && b < 0 {
        third_of_quadrant(ma, mb)
    } else if a > 0 {
        3 + third_of_quadrant(mb, ma)
    } else if b > 0 {
        6 + third_of_quadrant(ma, mb)
    } else {
        9 + third_of_quadrant(mb, ma)
    }
}

/// Whether a cell of frame `frame_index` is drawn filled: inside the disc and
/// outside the missing twelfth.
pub open spec fn spinner_cell_filled(frame_index: int, radius: int, row: int, col: int) -> bool {
    in_disc(radius, row, col) && sector_of(cell_a(radius, col), cell_b(radius, row))
        != frame_index % (FRAMES_PER_TURN as int)
}

/// Row `row` of a frame, one character per column.
pub open spec fn spinner_row(frame_index: int, radius: int, row: int) -> Seq<char> {
    Seq::new(
        (2 * (2 * radius + 1)) as nat,
        |col: int|
            if spinner_cell_filled(frame_index, radius, row, col) {
                FILLED_CHAR
            } else {
                EMPTY_CHAR
            },
    )
}

/// The radii for which a frame's cell count fits in a `usize`.
pub open spec fn frame_fits(radius: int) -> bool {
    (2 * radius + 1) * (2 * (2 * radius + 1)) <= usize::MAX
}

fn third_exec(num: i128, den: i128) -> (t: i128)
    requires
        0 < num < 0x1_0000_0000_0000,
        0 < den < 0x1_0000_0000_0000,
    ensures
        t == third_of_quadrant(num as int, den as int),
{
    assert(num * num < 0x1_0000_0000_0000_0000_0000_0000) by (nonlinear_arith)
        requires
            0 < num < 0x1_0000_0000_0000,
    ;
    assert(den * den < 0x1_0000_0000_0000_0000_0000_0000) by (nonlinear_arith)
        requires
            0 < den < 0x1_0000_0000_0000,
    ;
    let n2 = num * num;
    let d2 = den * den;
    if 3 * n2 < d2 {
        0
    } else if n2 < 3 * d2 {
        1
    } else {
        2
    }
}

fn sector_exec(a: i128, b: i128) -> (s: i128)
    requires
        -0x1_0000_0000_0000 < a < 0x1_0000_0000_0000,
        -0x1_0000_0000_0000 < b < 0x1_0000_0000_0000,
        a != 0,
        b != 0,
    ensures
        s == sector_of(a as int, b as int),
{
    let ma = if a < 0 {
        -a
    } else {
        a
    };
    let mb = if b < 0 {
        -b
    } else {
        b
    };
    if a > 0 && b < 0 {
        third_exec(ma, mb)
    } else if a > 0 {
        3 + third_exec(mb, ma)
    } else if b > 0 {
        6 + third_exec(ma, mb)
    } else {
        9 + third_exec(mb, ma)
    }
}

pub proof fn lemma_radius_small(radius: int)
    requires
        radius >= 0,
        frame_fits(radius),
    ensures
        radius < 0x1_0000_0000,
{
    if radius >= 0x1_0000_0000 {
        assert((2 * radius + 1) * (2 * (2 * radius + 1)) > usize::MAX) by (nonlinear_arith)
            requires
                radius >= 0x1_0000_0000,
        ;
    }
}

/// Whether the centre of cell `(row, col)` lies within the disc.
pub fn cell_in_disc(radius: usize, row: usize, col: usize) -> (b: bool)
    requires
        frame_fits(radius as int),
        row < 2 * radius + 1,
        col < 2 * (2 * radius + 1),
    ensures
        b == in_disc(radius as int, row as int, col as int),
{
    proof {
        lemma_radius_small(radius as int);
    }
    let r: i128 = radius as i128;
    let a: i128 = 2 * (col as i128) + 1 - 4 * r;
    let b: i128 = 4 * (row as i128) + 2 - 4 * r;
    assert(0 <= a * a <= 0x100_0000_0000_0000_0000) by (nonlinear_arith)
        requires
            -0x10_0000_0000 < a < 0x10_0000_0000,
    ;
    assert(0 <= b * b <= 0x100_0000_0000_0000_0000) by (nonlinear_arith)
        requires
            -0x10_0000_0000 < b < 0x10_0000_0000,
    ;
    assert(0 <= r * r <= 0x1_0000_0000_0000_0000) by (nonlinear_arith)
        requires
            0 <= r < 0x1_0000_0000,
    ;
    let aa = a * a;
    let bb = b * b;
    let rr = r * r;
    assert(16 * radius * radius == 16 * rr) by (nonlinear_arith)
        requires
            r == radius,
            rr == r * r,
    ;
    aa + bb <= 16 * rr
}

/// Returns the spinner frame as `2 * radius + 1` lines of `2 * (2 * radius + 1)`
/// characters. `frame_index` is taken modulo `FRAMES_PER_TURN`.
pub fn frame(frame_index: usize, radius: usize) -> (lines: Vec<String>)
    requires
        frame_fits(radius as int),
    ensures
        lines@.len() == 2 * radius + 1,
        forall|row: int|
            0 <= row < lines@.len() ==> (#[trigger] lines@[row])@ == spinner_row(
                frame_index as int,
                radius as int,
                row,
            ),
{
    proof {
        lemma_radius_small(radius as int);
        assert(2 * (2 * radius + 1) <= usize::MAX) by (nonlinear_arith)
            requires
                (2 * radius + 1) * (2 * (2 * radius + 1)) <= usize::MAX,
                radius >= 0,
        ;
    }
    let missing: i128 = (frame_index % FRAMES_PER_TURN) as i128;
    let r: i128 = radius as i128;
    let height: usize = radius * 2 + 1;
    let width: usize = height * 2;
    let mut lines: Vec<String> = Vec::new();
    let mut row: usize = 0;
    while row < height
        invariant
            height == 2 * radius + 1,
            width == 2 * height,
            0 <= r < 0x1_0000_0000,
            r == radius,
            missing == frame_index % 12,
            row <= height,
            lines@.len() == row,
            forall|k: int|
                0 <= k < row ==> (#[trigger] lines@[k])@ == spinner_row(
                    frame_index as int,
                    radius as int,
                    k,
                ),
        decreases height - row,
    {
        let mut line = String::new();
        let b: i128 = 4 * (row as i128) + 2 - 4 * r;
        let mut col: usize = 0;
        while col < width
            invariant
                height == 2 * radius + 1,
                width == 2 * height,
                0 <= r < 0x1_0000_0000,
                r == radius,
                missing == frame_index % 12,
                row < height,
                b == cell_b(radius as int, row as int),
                col <= width,
                line@ == spinner_row(frame_index as int, radius as int, row as int).take(col as int),
            decreases width - col,
        {
            let a: i128 = 2 * (col as i128) + 1 - 4 * r;
            assert(-0x10_0000_0000 < a < 0x10_0000_0000);
            assert(-0x10_0000_0000 < b < 0x10_0000_0000);
            assert(0 <= a * a <= 0x100_0000_0000_0000_0000) by (nonlinear_arith)
                requires
                    -0x10_0000_0000 < a < 0x10_0000_0000,
            ;
            assert(0 <= b * b <= 0x100_0000_0000_0000_0000) by (nonlinear_arith)
                requires
                    -0x10_0000_0000 < b < 0x10_0000_0000,
            ;
            assert(0 <= r * r <= 0x1_0000_0000_0000_0000) by (nonlinear_arith)
                requires
                    0 <= r < 0x1_0000_0000,
            ;
            let aa = a * a;
            let bb = b * b;
            let rr = r * r;
            assert(16 * radius * radius == 16 * rr) by (nonlinear_arith)
                requires
                    r == radius,
                    rr == r * r,
            ;
            let filled = if aa + bb > 16 * rr {
                false
            } else {
                assert(a != 0 && b != 0) by {
                    assert(a % 2 == 1 || a % 2 == -1);
                }
                sector_exec(a, b) != missing
            };
            let ghost target = spinner_row(frame_index as int, radius as int, row as int);
            proof {
                assert(filled == spinner_cell_filled(
                    frame_index as int,
                    radius as int,
                    row as int,
                    col as int,
                ));
                assert(target.take(col + 1) == target.take(col as int).push(target[col as int]));
            }
            if filled {
                push_char(&mut line, FILLED_CHAR);
            } else {
                push_char(&mut line, EMPTY_CHAR);
            }
            col = col + 1;
        }
        proof {
            let target = spinner_row(frame_index as int, radius as int, row as int);
            assert(target.take(width as int) == target);
        }
        lines.push(line);
        row = row + 1;
    }
    lines
}

/// Twelve frames make a full turn: frame `i + 12` draws what frame `i` draws.
pub proof fn lemma_frame_period(frame_index: int, radius: int, row: int)
    requires
        frame_index >= 0,
    ensures
        spinner_row(frame_index + FRAMES_PER_TURN as int, radius, row) == spinner_row(
            frame_index,
            radius,
            row,
        ),
{
    assert((frame_index + 12) % 12 == frame_index % 12);
    assert(spinner_row(frame_index + FRAMES_PER_TURN as int, radius, row) =~= spinner_row(
        frame_index,
        radius,
        row,
    ));
}

/// Every cell outside the disc is blank, in every frame.
pub proof fn lemma_outside_disc_blank(frame_index: int, radius: int, row: int, col: int)
    requires
        0 <= col < 2 * (2 * radius + 1),
        !in_disc(radius, row, col),
    ensures
        spinner_row(frame_index, radius, row)[col] == EMPTY_CHAR,
{
}

} // verus!
