//! A room-sized grid of flags.

use vstd::prelude::*;

verus! {

/// Tiles along one side of the grid.
pub const SIDE: usize = 50;

/// The coordinates lie inside the grid.
pub open spec fn inside(x: int, y: int) -> bool {
    0 <= x < 50 && 0 <= y < 50
}

/// One flag per tile of a room, row by row.
pub struct Grid {
    cells: Vec<bool>,
}

impl Grid {
    /// The grid holds one flag per tile.
    pub closed spec fn valid(self) -> bool {
        self.cells.len() == 2500
    }

    /// The flag of tile `(x, y)`.
    pub closed spec fn at(self, x: int, y: int) -> bool {
        self.cells[50 * y + x]
    }

    /// The flags of the grid as a plan.
    pub open spec fn plan(self) -> spec_fn(int, int) -> bool {
        |x: int, y: int| self.at(x, y)
    }

    /// The grid holds the flags of a plan.
    pub open spec fn shows(self, plan: spec_fn(int, int) -> bool) -> bool {
        &&& self.valid()
        &&& forall|x: int, y: int| inside(x, y) ==> #[trigger] self.at(x, y) == plan(x, y)
    }

    /// A grid with every flag clear.
    pub fn new() -> (grid: Grid)
        ensures
            grid.valid(),
            forall|x: int, y: int| inside(x, y) ==> !#[trigger] grid.at(x, y),
    {
        let mut cells: Vec<bool> = Vec::new();
        for i in 0..2500usize
            invariant
                cells.len() == i,
                forall|k: int| 0 <= k < i ==> !#[trigger] cells[k],
        {
            cells.push(false);
        }
        Grid { cells }
    }

    /// A copy of this grid.
    pub fn copy(&self) -> (grid: Grid)
        requires
            self.valid(),
        ensures
            grid.valid(),
            forall|x: int, y: int| inside(x, y) ==> #[trigger] grid.at(x, y) == self.at(x, y),
    {
        let mut cells: Vec<bool> = Vec::new();
        for i in 0..2500usize
            invariant
                self.valid(),
                cells.len() == i,
                forall|k: int| 0 <= k < i ==> #[trigger] cells[k] == self.cells[k],
        {
            cells.push(self.cells[i]);
        }
        Grid { cells }
    }

    /// The flag of tile `(x, y)`.
    pub fn get(&self, x: usize, y: usize) -> (flag: bool)
        requires
            self.valid(),
            x < SIDE,
            y < SIDE,
        ensures
            flag == self.at(x as int, y as int),
    {
        self.cells[50 * y + x]
    }

    /// Sets the flag of tile `(x, y)`.
    pub fn set(&mut self, x: usize, y: usize, flag: bool)
        requires
            old(self).valid(),
            x < SIDE,
            y < SIDE,
        ensures
            final(self).valid(),
            forall|a: int, b: int|
                inside(a, b) ==> #[trigger] final(self).at(a, b) == if a == x && b == y {
                    flag
                } else {
                    old(self).at(a, b)
                },
    {
        self.cells.set(50 * y + x, flag);
    }
}

} // verus!
