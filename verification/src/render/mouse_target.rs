//! Maps a screen cell of the rendered view to the pie slice it stands for.

use vstd::prelude::*;

verus! {

/// A 2D grid: `cells[row][col] = Some(slice_index)` for cells that react to
/// clicks (pie cells, legend rows), `None` otherwise. Rows may differ in length.
#[derive(Debug, Clone, PartialEq, Eq)]
pub struct ClickTargets {
    pub cells: Vec<Vec<Option<usize>>>,
}

/// The grid as rows of cells.
pub open spec fn grid_view(cells: Seq<Vec<Option<usize>>>) -> Seq<Seq<Option<usize>>> {
    cells.map_values(|row: Vec<Option<usize>>| row@)
}

/// The slice under `(column, row)` of a grid; `None` outside the grid.
pub open spec fn cell_at(grid: Seq<Seq<Option<usize>>>, column: int, row: int) -> Option<usize> {
    if 0 <= row < grid.len() && 0 <= column < grid[row].len() {
        grid[row][column]
    } else {
        None
    }
}

impl ClickTargets {
    pub open spec fn grid(&self) -> Seq<Seq<Option<usize>>> {
        grid_view(self.cells@)
    }

    /// A grid with no rows: no click resolves.
    pub fn empty() -> (t: Self)
        ensures
            t.grid().len() == 0,
    {
        Self { cells: Vec::new() }
    }

    /// The slice index under `(column, row)`, if any.
    pub fn slice_at(&self, column: u16, row: u16) -> (s: Option<usize>)
        ensures
            s == cell_at(self.grid(), column as int, row as int),
    {
        let r = row as usize;
        let c = column as usize;
        if r < self.cells.len() {
            let line = &self.cells[r];
            if c < line.len() {
                return line[c];
            }
        }
        None
    }
}

} // verus!
