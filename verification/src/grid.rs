//! The occupancy grid: a fixed-size two-dimensional array of cell states
//! with bounds-checked reads, bounds-required writes, and bulk clearing.

use vstd::prelude::*;

verus! {

/// Largest width or height the search accepts; keeps every quantity the
/// search computes (squared distances, path costs, priorities) well inside
/// the range of `usize`/`isize` even on 32-bit targets.
pub const MAX_DIM: usize = 10000;

/// A coordinate pair. `x` grows to the right, `y` grows downward.
#[derive(Clone, Copy, PartialEq, Eq, Structural, Debug)]
pub struct Position {
    pub x: isize,
    pub y: isize,
}

/// The state of one grid cell. `Wall` is impassable to the search; every
/// other state is passable. `Path` and `Visited` are display markings
/// written back after a successful search.
#[derive(Clone, Copy, PartialEq, Eq, Structural, Debug)]
pub enum Cell {
    Start,
    Goal,
    Wall,
    Free,
    Path,
    Visited,
}

/// What one cell becomes when path and visited markings are erased.
pub open spec fn unmark_cell(c: Cell) -> Cell {
    if c is Path || c is Visited {
        Cell::Free
    } else {
        c
    }
}

/// A whole row-major cell sequence with path and visited markings erased.
pub open spec fn unmarked(cells: Seq<Cell>) -> Seq<Cell> {
    cells.map_values(|c: Cell| unmark_cell(c))
}

/// A grid of `width * height` cells, stored row-major: the cell at
/// `(x, y)` lives at index `x + y * width`.
pub struct Grid {
    pub memory: Vec<Cell>,
    pub width: usize,
    pub height: usize,
}

/// The row-major index of in-bounds coordinates stays below `w * h`.
pub proof fn lemma_index_in_range(x: int, y: int, w: int, h: int)
    requires
        0 <= x < w,
        0 <= y < h,
    ensures
        0 <= x + y * w < w * h,
{
    assert(0 <= x + y * w < w * h) by (nonlinear_arith)
        requires
            0 <= x < w,
            0 <= y < h,
    {
    }
}

impl Grid {
    /// The storage holds exactly one cell per coordinate.
    pub open spec fn wf(self) -> bool {
        self.memory@.len() == self.width * self.height
    }

    /// The row-major cell sequence.
    pub open spec fn cells(self) -> Seq<Cell> {
        self.memory@
    }

    pub open spec fn in_bounds(self, x: int, y: int) -> bool {
        0 <= x < self.width && 0 <= y < self.height
    }

    pub open spec fn cell_at(self, x: int, y: int) -> Cell {
        self.memory@[x + y * self.width]
    }

    /// A grid with every cell `Free`. Zero width or height yields a
    /// degenerate grid with no valid coordinate.
    pub fn new(width: usize, height: usize) -> (g: Grid)
        requires
            width * height <= usize::MAX,
        ensures
            g.wf(),
            g.width == width,
            g.height == height,
            g.cells() == Seq::new((width * height) as nat, |i: int| Cell::Free),
    {
        let n = width * height;
        let mut memory: Vec<Cell> = Vec::new();
        let mut i: usize = 0;
        while i < n
            invariant
                i <= n,
                memory@.len() == i,
                forall|j: int| 0 <= j < i ==> memory@[j] == Cell::Free,
            decreases n - i,
        {
            memory.push(Cell::Free);
            i = i + 1;
        }
        let g = Grid { memory, width, height };
        proof {
            assert(g.cells() =~= Seq::new((width * height) as nat, |i: int| Cell::Free));
        }
        g
    }

    /// The state of the cell at `(x, y)`, or `None` when the coordinate
    /// lies outside the grid.
    pub fn get_cell(&self, x: usize, y: usize) -> (r: Option<Cell>)
        requires
            self.wf(),
        ensures
            self.in_bounds(x as int, y as int) ==> r == Some(self.cell_at(x as int, y as int)),
            !self.in_bounds(x as int, y as int) ==> r is None,
    {
        if x >= self.width || y >= self.height {
            return None;
        }
        let n = self.memory.len();
        proof {
            lemma_index_in_range(x as int, y as int, self.width as int, self.height as int);
        }
        Some(self.memory[x + y * self.width])
    }

    /// Overwrite the cell at `(x, y)`. The coordinate must be in bounds:
    /// an out-of-bounds write is a caller contract violation, rejected
    /// here by precondition rather than discovered as silent corruption.
    pub fn set_cell(&mut self, x: usize, y: usize, value: Cell)
        requires
            old(self).wf(),
            old(self).in_bounds(x as int, y as int),
        ensures
            final(self).wf(),
            final(self).width == old(self).width,
            final(self).height == old(self).height,
            final(self).cells() == old(self).cells().update(x + y * old(self).width as int, value),
    {
        let n = self.memory.len();
        proof {
            lemma_index_in_range(x as int, y as int, self.width as int, self.height as int);
        }
        self.memory.set(x + y * self.width, value);
    }

    /// Reset every cell to `Free`, erasing start, goal and wall markings
    /// along with any path or visited markings.
    pub fn clear(&mut self)
        requires
            old(self).wf(),
        ensures
            final(self).wf(),
            final(self).width == old(self).width,
            final(self).height == old(self).height,
            final(self).cells() == Seq::new(old(self).cells().len(), |i: int| Cell::Free),
    {
        let n = self.memory.len();
        let mut i: usize = 0;
        while i < n
            invariant
                i <= n,
                self.memory@.len() == n,
                self.width == old(self).width,
                self.height == old(self).height,
                forall|j: int| 0 <= j < i ==> self.memory@[j] == Cell::Free,
            decreases n - i,
        {
            self.memory.set(i, Cell::Free);
            i = i + 1;
        }
        proof {
            assert(self.cells() =~= Seq::new(old(self).cells().len(), |i: int| Cell::Free));
        }
    }

    /// Reset only `Path` and `Visited` cells to `Free`, leaving start,
    /// goal and wall markings untouched.
    pub fn clear_path(&mut self)
        requires
            old(self).wf(),
        ensures
            final(self).wf(),
            final(self).width == old(self).width,
            final(self).height == old(self).height,
            final(self).cells() == unmarked(old(self).cells()),
    {
        let n = self.memory.len();
        let mut i: usize = 0;
        while i < n
            invariant
                i <= n,
                self.memory@.len() == n,
                self.width == old(self).width,
                self.height == old(self).height,
                forall|j: int| 0 <= j < i ==> self.memory@[j] == unmark_cell(old(self).memory@[j]),
                forall|j: int| i <= j < n ==> self.memory@[j] == old(self).memory@[j],
            decreases n - i,
        {
            match self.memory[i] {
                Cell::Path | Cell::Visited => {
                    self.memory.set(i, Cell::Free);
                },
                _ => {},
            }
            i = i + 1;
        }
        proof {
            assert(self.cells() =~= unmarked(old(self).cells()));
        }
    }
}

} // verus!
