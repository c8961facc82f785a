//! Paintable terrain weight grid affecting pathfinding and movement.
//!
//! Dual-weight model:
//! - `hard_costs`: path cost multiplier on a scale of 100
//!   (100 = normal, 200 = double, `u16::MAX` = impassable wall).
//! - `soft_costs`: movement speed percentage (100 = full, 0 = stopped).
//!
//! The cell size is carried as an opaque value `F`; no logic here reads it.

use vstd::prelude::*;
use crate::grid::GridCell;

verus! {

/// The cost every cell holds after construction or reset.
pub const DEFAULT_COST: u16 = 100;

/// Value of an impassable hard cost.
pub const WALL: u16 = 0xFFFF;

#[derive(Clone, Debug)]
pub struct TerrainGrid<F> {
    pub width: u32,
    pub height: u32,
    pub cell_size: F,
    pub hard_costs: Vec<u16>,
    pub soft_costs: Vec<u16>,
}

/// Row-major index of column `x`, row `y` in a grid `width` cells wide.
pub open spec fn row_major(width: int, x: int, y: int) -> int {
    y * width + x
}

impl<F> TerrainGrid<F> {
    /// Number of cells, as a mathematical integer.
    pub open spec fn cell_count(&self) -> int {
        self.width as int * self.height as int
    }

    /// Both cost layers hold one entry per cell and every row-major index fits in `u32`.
    pub open spec fn wf(&self) -> bool {
        &&& self.cell_count() <= u32::MAX
        &&& self.hard_costs@.len() == self.cell_count()
        &&& self.soft_costs@.len() == self.cell_count()
    }

    /// The bounds test of the grid, with the dimensions read as `i32`.
    pub open spec fn spec_in_bounds(&self, cell: GridCell) -> bool {
        &&& cell.x >= 0
        &&& cell.x < self.width as i32
        &&& cell.y >= 0
        &&& cell.y < self.height as i32
    }

    pub open spec fn cell_index(&self, cell: GridCell) -> int {
        row_major(self.width as int, cell.x as int, cell.y as int)
    }

    /// Hard cost of a cell: its stored value inside the grid, a wall outside.
    pub open spec fn spec_hard_cost(&self, cell: GridCell) -> u16 {
        if self.spec_in_bounds(cell) {
            self.hard_costs@[self.cell_index(cell)]
        } else {
            WALL
        }
    }

    /// Soft cost of a cell: its stored value inside the grid, 0 (frozen) outside.
    pub open spec fn spec_soft_cost(&self, cell: GridCell) -> u16 {
        if self.spec_in_bounds(cell) {
            self.soft_costs@[self.cell_index(cell)]
        } else {
            0
        }
    }

    /// The cell at row-major position `i`, as the grid reports it.
    pub open spec fn cell_at(&self, i: int) -> GridCell {
        GridCell { x: (i % self.width as int) as i32, y: (i / self.width as int) as i32 }
    }

    /// Wall cells among the first `n` row-major positions, in row-major order.
    pub open spec fn walls_upto(&self, n: nat) -> Seq<GridCell>
        decreases n,
    {
        if n == 0 {
            Seq::empty()
        } else {
            let rest = self.walls_upto((n - 1) as nat);
            if self.hard_costs@[n - 1] == WALL {
                rest.push(self.cell_at(n - 1))
            } else {
                rest
            }
        }
    }

    /// Creates a grid whose every cell has hard and soft cost 100.
    pub fn new(width: u32, height: u32, cell_size: F) -> (grid: Self)
        requires
            width as int * height as int <= u32::MAX,
        ensures
            grid.wf(),
            grid.width == width,
            grid.height == height,
            grid.cell_size == cell_size,
            forall|i: int| 0 <= i < grid.cell_count() ==> grid.hard_costs@[i] == DEFAULT_COST,
            forall|i: int| 0 <= i < grid.cell_count() ==> grid.soft_costs@[i] == DEFAULT_COST,
    {
        let size = (width * height) as usize;
        let hard_costs = vec![DEFAULT_COST; size];
        let soft_costs = vec![DEFAULT_COST; size];
        TerrainGrid { width, height, cell_size, hard_costs, soft_costs }
    }

    pub fn in_bounds(&self, cell: GridCell) -> (b: bool)
        ensures
            b == self.spec_in_bounds(cell),
    {
        cell.x >= 0 && cell.x < self.width as i32 && cell.y >= 0 && cell.y < self.height as i32
    }

    proof fn lemma_index_in_range(&self, cell: GridCell)
        requires
            self.wf(),
            self.spec_in_bounds(cell),
        ensures
            0 <= cell.x < self.width,
            0 <= cell.y < self.height,
            0 <= self.cell_index(cell) < self.cell_count(),
    {
        let w = self.width as int;
        let h = self.height as int;
        assert(cell.x < w);
        assert(cell.y < h);
        assert(cell.y * w + cell.x < h * w) by (nonlinear_arith)
            requires
                0 <= cell.x < w,
                0 <= cell.y < h,
        ;
        assert(0 <= cell.y * w) by (nonlinear_arith)
            requires
                0 <= cell.y,
                0 <= w,
        ;
        assert(h * w == w * h) by (nonlinear_arith);
    }

    fn index_of(&self, cell: GridCell) -> (i: usize)
        requires
            self.wf(),
            self.spec_in_bounds(cell),
        ensures
            i == self.cell_index(cell),
            i < self.cell_count(),
    {
        proof {
            self.lemma_index_in_range(cell);
        }
        (cell.y as u32 * self.width + cell.x as u32) as usize
    }

    /// Path cost of a cell; cells outside the grid are walls.
    pub fn get_hard_cost(&self, cell: GridCell) -> (c: u16)
        requires
            self.wf(),
        ensures
            c == self.spec_hard_cost(cell),
    {
        if !self.in_bounds(cell) {
            return WALL;
        }
        let i = self.index_of(cell);
        self.hard_costs[i]
    }

    /// Speed percentage of a cell; cells outside the grid are frozen (0).
    pub fn get_soft_cost(&self, cell: GridCell) -> (c: u16)
        requires
            self.wf(),
        ensures
            c == self.spec_soft_cost(cell),
    {
        if !self.in_bounds(cell) {
            return 0;
        }
        let i = self.index_of(cell);
        self.soft_costs[i]
    }

    /// Writes both costs of cell (`x`, `y`); coordinates outside the grid change nothing.
    pub fn set_cell(&mut self, x: u32, y: u32, hard: u16, soft: u16)
        requires
            old(self).wf(),
        ensures
            final(self).wf(),
            final(self).width == old(self).width,
            final(self).height == old(self).height,
            final(self).cell_size == old(self).cell_size,
            if x < old(self).width && y < old(self).height {
                let i = row_major(old(self).width as int, x as int, y as int);
                &&& final(self).hard_costs@ == old(self).hard_costs@.update(i, hard)
                &&& final(self).soft_costs@ == old(self).soft_costs@.update(i, soft)
            } else {
                &&& final(self).hard_costs@ == old(self).hard_costs@
                &&& final(self).soft_costs@ == old(self).soft_costs@
            },
    {
        if x < self.width && y < self.height {
            proof {
                let w = self.width as int;
                let h = self.height as int;
                assert(y * w + x < h * w) by (nonlinear_arith)
                    requires
                        0 <= x < w,
                        0 <= y < h,
                ;
                assert(h * w == w * h) by (nonlinear_arith);
            }
            let idx = (y * self.width + x) as usize;
            self.hard_costs.set(idx, hard);
            self.soft_costs.set(idx, soft);
        }
    }

    proof fn lemma_walls_upto_len(&self, n: nat)
        ensures
            self.walls_upto(n).len() <= n,
        decreases n,
    {
        if n > 0 {
            self.lemma_walls_upto_len((n - 1) as nat);
        }
    }

    /// All wall cells (`hard_cost == u16::MAX`), in row-major order.
    pub fn hard_obstacles(&self) -> (obs: Vec<GridCell>)
        requires
            self.wf(),
        ensures
            obs@ == self.walls_upto(self.cell_count() as nat),
    {
        let mut obs: Vec<GridCell> = Vec::new();
        let mut y: u32 = 0;
        while y < self.height
            invariant
                self.wf(),
                y <= self.height,
                obs@ == self.walls_upto(row_major(self.width as int, 0, y as int) as nat),
            decreases self.height - y,
        {
            let mut x: u32 = 0;
            while x < self.width
                invariant
                    self.wf(),
                    y < self.height,
                    x <= self.width,
                    obs@ == self.walls_upto(row_major(self.width as int, x as int, y as int) as nat),
                decreases self.width - x,
            {
                let ghost i = row_major(self.width as int, x as int, y as int);
                proof {
                    let w = self.width as int;
                    let h = self.height as int;
                    assert(y * w + x < h * w) by (nonlinear_arith)
                        requires
                            0 <= x < w,
                            0 <= y < h,
                    ;
                    assert(h * w == w * h) by (nonlinear_arith);
                    assert(0 <= y * w) by (nonlinear_arith)
                        requires
                            0 <= y,
                            0 <= w,
                    ;
                    assert((y * w + x) % w == x as int && (y * w + x) / w == y as int) by {
                        vstd::arithmetic::div_mod::lemma_fundamental_div_mod_converse(
                            y * w + x, w, y as int, x as int);
                    }
                }
                let idx = (y * self.width + x) as usize;
                if self.hard_costs[idx] == WALL {
                    obs.push(GridCell { x: x as i32, y: y as i32 });
                }
                x = x + 1;
                proof {
                    assert(row_major(self.width as int, x as int, y as int) == i + 1);
                }
            }
            y = y + 1;
            proof {
                let w = self.width as int;
                assert(row_major(w, w, (y - 1) as int) == row_major(w, 0, y as int)) by (nonlinear_arith);
            }
        }
        proof {
            let w = self.width as int;
            let h = self.height as int;
            assert(row_major(w, 0, h) == h * w);
            assert(h * w == w * h) by (nonlinear_arith);
        }
        obs
    }

    /// Restores every hard and soft cost to 100.
    pub fn reset(&mut self)
        requires
            old(self).wf(),
        ensures
            final(self).wf(),
            final(self).width == old(self).width,
            final(self).height == old(self).height,
            final(self).cell_size == old(self).cell_size,
            forall|i: int| 0 <= i < final(self).cell_count() ==> final(self).hard_costs@[i] == DEFAULT_COST,
            forall|i: int| 0 <= i < final(self).cell_count() ==> final(self).soft_costs@[i] == DEFAULT_COST,
    {
        let n = self.hard_costs.len();
        let mut i: usize = 0;
        while i < n
            invariant
                self.wf(),
                n == self.hard_costs@.len(),
                i <= n,
                self.width == old(self).width,
                self.height == old(self).height,
                self.cell_size == old(self).cell_size,
                forall|j: int| 0 <= j < i ==> self.hard_costs@[j] == DEFAULT_COST,
                forall|j: int| 0 <= j < i ==> self.soft_costs@[j] == DEFAULT_COST,
            decreases n - i,
        {
            self.hard_costs.set(i, DEFAULT_COST);
            self.soft_costs.set(i, DEFAULT_COST);
            i = i + 1;
        }
    }
}

} // verus!
