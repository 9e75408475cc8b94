//! Per-slice colours.

use vstd::prelude::*;

verus! {

/// The terminal colours the palette draws from.
#[derive(Debug, Clone, Copy, PartialEq, Eq, Hash, Structural)]
pub enum SliceColor {
    Red,
    Yellow,
    Green,
    Cyan,
    Blue,
    Magenta,
    DarkYellow,
    DarkGreen,
    DarkCyan,
    DarkGrey,
}

/// Number of colours in the palette.
pub const PALETTE_LEN: usize = 10;

/// The palette, in order. Readable on dark and light terminals; the last entry
/// (DarkGrey) suits the synthetic « Autres » bucket, which always comes last.
pub open spec fn palette_entry(i: int) -> SliceColor {
    if i == 0 {
        SliceColor::Red
    } else if i == 1 {
        SliceColor::Yellow
    } else if i == 2 {
        SliceColor::Green
    } else if i == 3 {
        SliceColor::Cyan
    } else if i == 4 {
        SliceColor::Blue
    } else if i == 5 {
        SliceColor::Magenta
    } else if i == 6 {
        SliceColor::DarkYellow
    } else if i == 7 {
        SliceColor::DarkGreen
    } else if i == 8 {
        SliceColor::DarkCyan
    } else {
        SliceColor::DarkGrey
    }
}

/// The palette as a list.
pub fn slice_palette() -> (p: Vec<SliceColor>)
    ensures
        p@.len() == PALETTE_LEN,
        forall|i: int| 0 <= i < PALETTE_LEN ==> p@[i] == palette_entry(i),
{
    let mut p: Vec<SliceColor> = Vec::new();
    let mut i: usize = 0;
    while i < PALETTE_LEN
        invariant
            i <= PALETTE_LEN,
            p@.len() == i,
            forall|k: int| 0 <= k < i ==> p@[k] == palette_entry(k),
        decreases PALETTE_LEN - i,
    {
        p.push(color_for_slice(i));
        i = i + 1;
    }
    p
}

/// Returns a colour for the slice at `slice_index`, cycling through the palette.
pub fn color_for_slice(slice_index: usize) -> (c: SliceColor)
    ensures
        c == palette_entry(slice_index as int % PALETTE_LEN as int),
{
    let i = slice_index % PALETTE_LEN;
    if i == 0 {
        SliceColor::Red
    } else if i == 1 {
        SliceColor::Yellow
    } else if i == 2 {
        SliceColor::Green
    } else if i == 3 {
        SliceColor::Cyan
    } else if i == 4 {
        SliceColor::Blue
    } else if i == 5 {
        SliceColor::Magenta
    } else if i == 6 {
        SliceColor::DarkYellow
    } else if i == 7 {
        SliceColor::DarkGreen
    } else if i == 8 {
        SliceColor::DarkCyan
    } else {
        SliceColor::DarkGrey
    }
}

/// Slices less than a palette apart get different colours; slices a whole
/// palette apart share one.
pub proof fn lemma_palette_cycle(i: int, j: int)
    requires
        0 <= i,
        0 <= j,
    ensures
        (i % PALETTE_LEN as int == j % PALETTE_LEN as int) <==> palette_entry(
            i % PALETTE_LEN as int,
        ) == palette_entry(j % PALETTE_LEN as int),
{
}

} // verus!
