//! Integer flow-field costs: for every cell, the cheapest cost of reaching a
//! goal cell over the 8-neighbour grid (chamfer steps of 10 orthogonally and
//! 14 diagonally, scaled by the per-cell cost multiplier, 100 = normal, and
//! never below 1), with obstacles impassable and costs saturating at `u16::MAX`.

use vstd::prelude::*;
use crate::grid::GridCell;

verus! {

/// Cost of an unreachable or impassable cell.
pub const UNREACHABLE: u16 = 0xFFFF;

/// Column offset of neighbour direction `d` (0..8).
pub open spec fn dir_dx(d: int) -> int {
    if d == 0 || d == 3 || d == 5 { -1 } else if d == 1 || d == 6 { 0 } else { 1 }
}

/// Row offset of neighbour direction `d` (0..8).
pub open spec fn dir_dy(d: int) -> int {
    if d <= 2 { -1 } else if d <= 4 { 0 } else { 1 }
}

/// Base chamfer cost of a step in direction `d`.
pub open spec fn base_step(d: int) -> int {
    if dir_dx(d) != 0 && dir_dy(d) != 0 { 14 } else { 10 }
}

/// Index of the neighbour of cell `i` in direction `d` in a `w` by `h` grid, or -1 outside it.
pub open spec fn neighbor_of(w: int, h: int, i: int, d: int) -> int {
    let nx = i % w + dir_dx(d);
    let ny = i / w + dir_dy(d);
    if 0 <= nx < w && 0 <= ny < h { ny * w + nx } else { -1 }
}

/// Cost of stepping from cell `i` toward its neighbour in direction `d`:
/// the chamfer step scaled by the cell's multiplier, and never below 1.
pub open spec fn step_cost(cost_map: Seq<u16>, i: int, d: int) -> int {
    let s = base_step(d) * cost_map[i] / 100;
    if s < 1 { 1 } else { s }
}

/// Cost of cell `i` when reached through its neighbour in direction `d`.
pub open spec fn relaxed(costs: Seq<u16>, cost_map: Seq<u16>, w: int, h: int, i: int, d: int) -> int {
    let through = costs[neighbor_of(w, h, i, d)] + step_cost(cost_map, i, d);
    if through < UNREACHABLE { through } else { UNREACHABLE as int }
}

/// Row-major indices of the listed cells that lie inside a `w` by `h` grid.
pub open spec fn cell_indices(cells: Seq<GridCell>, w: int, h: int) -> Set<int> {
    Set::new(|i: int| exists|k: int| 0 <= k < cells.len() && {
        let c = #[trigger] cells[k];
        &&& 0 <= c.x < w
        &&& 0 <= c.y < h
        &&& i == c.y * w + c.x
    })
}

/// Sum of all entries.
pub open spec fn total(s: Seq<u16>) -> int
    decreases s.len(),
{
    if s.len() == 0 { 0 } else { total(s.drop_last()) + s.last() }
}

proof fn lemma_total_update(s: Seq<u16>, i: int, v: u16)
    requires
        0 <= i < s.len(),
    ensures
        total(s.update(i, v)) == total(s) - s[i] + v,
    decreases s.len(),
{
    let t = s.update(i, v);
    if i < s.len() - 1 {
        assert(t.drop_last() =~= s.drop_last().update(i, v));
        lemma_total_update(s.drop_last(), i, v);
    } else {
        assert(t.drop_last() =~= s.drop_last());
    }
}

proof fn lemma_total_nonneg(s: Seq<u16>)
    ensures
        total(s) >= 0,
    decreases s.len(),
{
    if s.len() > 0 {
        lemma_total_nonneg(s.drop_last());
    }
}

proof fn lemma_coords(w: int, x: int, y: int)
    requires
        0 <= x < w,
        0 <= y,
    ensures
        (y * w + x) % w == x,
        (y * w + x) / w == y,
{
    assert(0 <= y * w) by (nonlinear_arith)
        requires
            0 <= y,
            0 <= w,
    ;
    vstd::arithmetic::div_mod::lemma_fundamental_div_mod_converse(y * w + x, w, y, x);
}

proof fn lemma_cell_range(w: int, h: int, i: int)
    requires
        0 <= i < w * h,
        0 < w,
    ensures
        0 <= i % w < w,
        0 <= i / w < h,
{
    vstd::arithmetic::div_mod::lemma_fundamental_div_mod(i, w);
    assert(0 <= i / w < h) by (nonlinear_arith)
        requires
            0 <= i < w * h,
            0 < w,
            i == w * (i / w) + i % w,
            0 <= i % w < w,
    ;
}

proof fn lemma_neighbor_in_range(w: int, h: int, i: int, d: int)
    requires
        0 <= i < w * h,
        0 < w,
        0 <= d < 8,
        neighbor_of(w, h, i, d) >= 0,
    ensures
        0 <= neighbor_of(w, h, i, d) < w * h,
        neighbor_of(w, h, i, d) != i,
{
    lemma_cell_range(w, h, i);
    let nx = i % w + dir_dx(d);
    let ny = i / w + dir_dy(d);
    assert(ny * w + nx < w * h) by (nonlinear_arith)
        requires
            0 <= nx < w,
            0 <= ny < h,
    ;
    assert(0 <= ny * w) by (nonlinear_arith)
        requires
            0 <= ny,
            0 <= w,
    ;
    lemma_coords(w, nx, ny);
    assert(dir_dx(d) != 0 || dir_dy(d) != 0);
}

/// The index of the neighbour of cell `i` in direction `d`, if it lies in the grid.
fn neighbor(w: u32, h: u32, i: usize, d: usize) -> (r: Option<usize>)
    requires
        0 < w,
        w as int * h as int <= u32::MAX,
        i < w as int * h as int,
        d < 8,
    ensures
        match r {
            Some(c) => neighbor_of(w as int, h as int, i as int, d as int) == c as int,
            None => neighbor_of(w as int, h as int, i as int, d as int) == -1,
        },
{
    proof {
        lemma_cell_range(w as int, h as int, i as int);
    }
    let x = (i % (w as usize)) as i64;
    let y = (i / (w as usize)) as i64;
    let dx: i64 = if d == 0 || d == 3 || d == 5 { -1 } else if d == 1 || d == 6 { 0 } else { 1 };
    let dy: i64 = if d <= 2 { -1 } else if d <= 4 { 0 } else { 1 };
    let nx = x + dx;
    let ny = y + dy;
    if nx < 0 || ny < 0 || nx >= w as i64 || ny >= h as i64 {
        None
    } else {
        proof {
            assert(ny * w + nx < w as int * h as int) by (nonlinear_arith)
                requires
                    0 <= ny < h,
                    0 <= nx < w,
            ;
        }
        Some((ny as usize) * (w as usize) + nx as usize)
    }
}

/// Marks, in a `w` by `h` grid, the listed cells that lie inside it.
fn mark_cells(cells: &Vec<GridCell>, w: u32, h: u32) -> (marks: Vec<bool>)
    requires
        w as int * h as int <= u32::MAX,
    ensures
        marks@.len() == w as int * h as int,
        forall|i: int| 0 <= i < marks@.len() ==> #[trigger] marks@[i]
            == cell_indices(cells@, w as int, h as int).contains(i),
{
    let n = (w * h) as usize;
    let mut marks: Vec<bool> = vec![false; n];
    let m = cells.len();
    let mut k: usize = 0;
    while k < m
        invariant
            m == cells@.len(),
            k <= m,
            n == w as int * h as int,
            w as int * h as int <= u32::MAX,
            marks@.len() == n,
            forall|i: int| 0 <= i < n ==> #[trigger] marks@[i] == cell_indices(cells@.take(k as int), w as int, h as int).contains(i),
        decreases m - k,
    {
        let c = cells[k];
        let ghost before = marks@;
        if c.x >= 0 && c.y >= 0 && (c.x as u32) < w && (c.y as u32) < h {
            let cx = c.x as u32;
            let cy = c.y as u32;
            assert(cx == c.x && cy == c.y);
            proof {
                assert(cy * w + cx < w as int * h as int) by (nonlinear_arith)
                    requires
                        0 <= cx < w,
                        0 <= cy < h,
                ;
            }
            let idx = (cy * w + cx) as usize;
            marks.set(idx, true);
        }
        proof {
            let prev = cells@.take(k as int);
            let next = cells@.take(k + 1);
            assert forall|i: int| 0 <= i < n implies #[trigger] marks@[i]
                == cell_indices(next, w as int, h as int).contains(i) by {
                assert(next[k as int] == c);
                if cell_indices(prev, w as int, h as int).contains(i) {
                    let j = choose|j: int| 0 <= j < prev.len() && {
                        let cc = #[trigger] prev[j];
                        &&& 0 <= cc.x < w as int
                        &&& 0 <= cc.y < h as int
                        &&& i == cc.y * w + cc.x
                    };
                    assert(next[j] == prev[j]);
                }
                if cell_indices(next, w as int, h as int).contains(i) {
                    let j = choose|j: int| 0 <= j < next.len() && {
                        let cc = #[trigger] next[j];
                        &&& 0 <= cc.x < w as int
                        &&& 0 <= cc.y < h as int
                        &&& i == cc.y * w + cc.x
                    };
                    if j < k {
                        assert(prev[j] == next[j]);
                    }
                }
            }
        }
        k = k + 1;
    }
    assert(cells@.take(m as int) =~= cells@);
    marks
}

/// Whether `costs` is the saturated shortest-path cost field of a `w` by `h`
/// grid toward `goals`, around `blocked`, under `cost_map`: every obstacle is
/// unreachable, every free goal costs 0, no cell costs more than through any
/// neighbour, and every other reachable cell costs exactly what it does through
/// some neighbour.
pub open spec fn field_solved(
    costs: Seq<u16>,
    cost_map: Seq<u16>,
    w: int,
    h: int,
    blocked: Set<int>,
    goals: Set<int>,
) -> bool {
    &&& costs.len() == w * h
    &&& forall|i: int| 0 <= i < w * h && #[trigger] blocked.contains(i) ==> costs[i] == UNREACHABLE
    &&& forall|i: int| 0 <= i < w * h && #[trigger] goals.contains(i) && !blocked.contains(i) ==> costs[i] == 0
    &&& forall|i: int, d: int| 0 <= i < w * h && !blocked.contains(i) && 0 <= d < 8
        && neighbor_of(w, h, i, d) >= 0 ==> costs[i] <= #[trigger] relaxed(costs, cost_map, w, h, i, d)
    &&& forall|i: int| 0 <= i < w * h && !blocked.contains(i) && !goals.contains(i)
        && #[trigger] costs[i] < UNREACHABLE ==> exists|d: int| 0 <= d < 8
            && neighbor_of(w, h, i, d) >= 0 && costs[i] == #[trigger] relaxed(costs, cost_map, w, h, i, d)
}

/// Under two solved fields `a` and `b`, cell `i` costs no more in `a` than in `b`.
proof fn lemma_solved_le(a: Seq<u16>, b: Seq<u16>, cost_map: Seq<u16>, w: int, h: int, blocked: Set<int>, goals: Set<int>, i: int)
    requires
        0 < w,
        0 <= h,
        0 <= i < w * h,
        field_solved(a, cost_map, w, h, blocked, goals),
        field_solved(b, cost_map, w, h, blocked, goals),
    ensures
        a[i] <= b[i],
    decreases b[i],
{
    if !blocked.contains(i) && !goals.contains(i) && b[i] < UNREACHABLE {
        let d = choose|d: int| 0 <= d < 8 && neighbor_of(w, h, i, d) >= 0 && b[i] == #[trigger] relaxed(b, cost_map, w, h, i, d);
        let nb = neighbor_of(w, h, i, d);
        lemma_neighbor_in_range(w, h, i, d);
        assert(step_cost(cost_map, i, d) >= 1);
        assert(b[nb] < b[i]);
        lemma_solved_le(a, b, cost_map, w, h, blocked, goals, nb);
        assert(a[i] <= relaxed(a, cost_map, w, h, i, d));
    }
}

/// A solved cost field is unique: two fields solved for the same grid,
/// multipliers, obstacles and goals are equal, so `field_solved` pins the
/// costs down exactly.
pub proof fn law_solved_field_unique(a: Seq<u16>, b: Seq<u16>, cost_map: Seq<u16>, w: int, h: int, blocked: Set<int>, goals: Set<int>)
    requires
        0 <= w,
        0 <= h,
        field_solved(a, cost_map, w, h, blocked, goals),
        field_solved(b, cost_map, w, h, blocked, goals),
    ensures
        a == b,
{
    if w > 0 {
        assert forall|i: int| 0 <= i < a.len() implies a[i] == b[i] by {
            lemma_solved_le(a, b, cost_map, w, h, blocked, goals, i);
            lemma_solved_le(b, a, cost_map, w, h, blocked, goals, i);
        }
    } else {
        assert(w * h == 0) by (nonlinear_arith)
            requires
                w == 0,
        ;
    }
    assert(a =~= b);
}

/// Computes the cost field of a `w` by `h` grid toward `goals` around
/// `obstacles`, under the per-cell multipliers `cost_map` (100 = normal).
/// Listed cells outside the grid are ignored.
pub fn compute_costs(w: u32, h: u32, goals: &Vec<GridCell>, obstacles: &Vec<GridCell>, cost_map: &Vec<u16>) -> (costs: Vec<u16>)
    requires
        w as int * h as int <= u32::MAX,
        cost_map@.len() == w as int * h as int,
    ensures
        field_solved(
            costs@,
            cost_map@,
            w as int,
            h as int,
            cell_indices(obstacles@, w as int, h as int),
            cell_indices(goals@, w as int, h as int),
        ),
{
    let ghost wi = w as int;
    let ghost hi = h as int;
    let ghost bl = cell_indices(obstacles@, wi, hi);
    let ghost gl = cell_indices(goals@, wi, hi);
    let ghost cm = cost_map@;
    let blocked = mark_cells(obstacles, w, h);
    let goal = mark_cells(goals, w, h);
    let n = (w * h) as usize;
    let mut costs: Vec<u16> = Vec::new();
    let mut k: usize = 0;
    while k < n
        invariant
            n == wi * hi,
            blocked@.len() == n,
            goal@.len() == n,
            k <= n,
            costs@.len() == k,
            forall|i: int| 0 <= i < k ==> #[trigger] costs@[i] == (if goal@[i] && !blocked@[i] { 0u16 } else { UNREACHABLE }),
        decreases n - k,
    {
        costs.push(if goal[k] && !blocked[k] { 0 } else { UNREACHABLE });
        k = k + 1;
    }
    if n == 0 {
        return costs;
    }
    assert(wi > 0) by (nonlinear_arith)
        requires
            n == wi * hi,
            n > 0,
            wi >= 0,
            hi >= 0,
    ;
    let ghost mut via_dir: Seq<int> = Seq::new(n as nat, |i: int| 0);
    let mut done = false;
    while !done
        invariant
            n == wi * hi,
            wi == w,
            hi == h,
            wi > 0,
            w as int * h as int <= u32::MAX,
            cm == cost_map@,
            cm.len() == n,
            blocked@.len() == n,
            goal@.len() == n,
            forall|i: int| 0 <= i < n ==> #[trigger] blocked@[i] == bl.contains(i),
            forall|i: int| 0 <= i < n ==> #[trigger] goal@[i] == gl.contains(i),
            costs@.len() == n,
            via_dir.len() == n,
            forall|i: int| 0 <= i < n && #[trigger] bl.contains(i) ==> costs@[i] == UNREACHABLE,
            forall|i: int| 0 <= i < n && #[trigger] gl.contains(i) && !bl.contains(i) ==> costs@[i] == 0,
            forall|i: int| 0 <= i < n && !bl.contains(i) && !gl.contains(i) && #[trigger] costs@[i] < UNREACHABLE
                ==> 0 <= via_dir[i] < 8 && neighbor_of(wi, hi, i, via_dir[i]) >= 0
                    && costs@[i] >= relaxed(costs@, cm, wi, hi, i, via_dir[i]),
            done ==> forall|i: int, d: int| 0 <= i < n && !bl.contains(i) && 0 <= d < 8
                && neighbor_of(wi, hi, i, d) >= 0 ==> costs@[i] <= #[trigger] relaxed(costs@, cm, wi, hi, i, d),
        decreases (if done { 0 } else { total(costs@) + 1 }),
    {
        let ghost start = costs@;
        proof {
            lemma_total_nonneg(start);
        }
        let mut changed = false;
        let mut i: usize = 0;
        while i < n
            invariant
                n == wi * hi,
                wi == w,
                hi == h,
                wi > 0,
                w as int * h as int <= u32::MAX,
                cm == cost_map@,
                cm.len() == n,
                blocked@.len() == n,
                goal@.len() == n,
                forall|j: int| 0 <= j < n ==> #[trigger] blocked@[j] == bl.contains(j),
                forall|j: int| 0 <= j < n ==> #[trigger] goal@[j] == gl.contains(j),
                costs@.len() == n,
                via_dir.len() == n,
                i <= n,
                forall|j: int| 0 <= j < n && #[trigger] bl.contains(j) ==> costs@[j] == UNREACHABLE,
                forall|j: int| 0 <= j < n && #[trigger] gl.contains(j) && !bl.contains(j) ==> costs@[j] == 0,
                forall|j: int| 0 <= j < n && !bl.contains(j) && !gl.contains(j) && #[trigger] costs@[j] < UNREACHABLE
                    ==> 0 <= via_dir[j] < 8 && neighbor_of(wi, hi, j, via_dir[j]) >= 0
                        && costs@[j] >= relaxed(costs@, cm, wi, hi, j, via_dir[j]),
                !changed ==> costs@ == start,
                changed ==> total(costs@) < total(start),
                !changed ==> forall|j: int, d: int| 0 <= j < i && !bl.contains(j) && 0 <= d < 8
                    && neighbor_of(wi, hi, j, d) >= 0 ==> costs@[j] <= #[trigger] relaxed(costs@, cm, wi, hi, j, d),
            decreases n - i,
        {
            if !blocked[i] && !goal[i] {
                let mut d: usize = 0;
                while d < 8
                    invariant
                        n == wi * hi,
                        wi == w,
                        hi == h,
                        wi > 0,
                        w as int * h as int <= u32::MAX,
                        cm == cost_map@,
                        cm.len() == n,
                        blocked@.len() == n,
                        goal@.len() == n,
                        forall|j: int| 0 <= j < n ==> #[trigger] blocked@[j] == bl.contains(j),
                        forall|j: int| 0 <= j < n ==> #[trigger] goal@[j] == gl.contains(j),
                        costs@.len() == n,
                        via_dir.len() == n,
                        i < n,
                        !bl.contains(i as int),
                        !gl.contains(i as int),
                        d <= 8,
                        forall|j: int| 0 <= j < n && #[trigger] bl.contains(j) ==> costs@[j] == UNREACHABLE,
                        forall|j: int| 0 <= j < n && #[trigger] gl.contains(j) && !bl.contains(j) ==> costs@[j] == 0,
                        forall|j: int| 0 <= j < n && !bl.contains(j) && !gl.contains(j) && #[trigger] costs@[j] < UNREACHABLE
                            ==> 0 <= via_dir[j] < 8 && neighbor_of(wi, hi, j, via_dir[j]) >= 0
                                && costs@[j] >= relaxed(costs@, cm, wi, hi, j, via_dir[j]),
                        !changed ==> costs@ == start,
                        changed ==> total(costs@) < total(start),
                        !changed ==> forall|j: int, e: int| 0 <= j < i && !bl.contains(j) && 0 <= e < 8
                            && neighbor_of(wi, hi, j, e) >= 0 ==> costs@[j] <= #[trigger] relaxed(costs@, cm, wi, hi, j, e),
                        !changed ==> forall|e: int| 0 <= e < d && neighbor_of(wi, hi, i as int, e) >= 0
                            ==> costs@[i as int] <= #[trigger] relaxed(costs@, cm, wi, hi, i as int, e),
                    decreases 8 - d,
                {
                    match neighbor(w, h, i, d) {
                        Some(c) => {
                            proof {
                                lemma_neighbor_in_range(wi, hi, i as int, d as int);
                            }
                            let base: u32 = if d == 0 || d == 2 || d == 5 || d == 7 { 14 } else { 10 };
                            let scaled = base * (cost_map[i] as u32) / 100;
                            let step = if scaled < 1 { 1 } else { scaled };
                            let through = costs[c] as u32 + step;
                            let cand: u32 = if through < 0xFFFF { through } else { 0xFFFF };
                            assert(cand == relaxed(costs@, cm, wi, hi, i as int, d as int));
                            if cand < costs[i] as u32 {
                                let ghost before = costs@;
                                proof {
                                    lemma_total_update(before, i as int, cand as u16);
                                }
                                costs.set(i, cand as u16);
                                proof {
                                    via_dir = via_dir.update(i as int, d as int);
                                    assert forall|j: int| 0 <= j < n && !bl.contains(j) && !gl.contains(j)
                                        && #[trigger] costs@[j] < UNREACHABLE
                                        implies 0 <= via_dir[j] < 8 && neighbor_of(wi, hi, j, via_dir[j]) >= 0
                                            && costs@[j] >= relaxed(costs@, cm, wi, hi, j, via_dir[j]) by {
                                        if j != i {
                                            assert(before[j] == costs@[j]);
                                            lemma_neighbor_in_range(wi, hi, j, via_dir[j]);
                                        }
                                    }
                                }
                                changed = true;
                            }
                        },
                        None => {},
                    }
                    d = d + 1;
                }
            }
            i = i + 1;
        }
        proof {
            lemma_total_nonneg(costs@);
        }
        if !changed {
            done = true;
        }
    }
    costs
}

/// A cost field over a `width` by `height` grid; the cell size is carried as an opaque `F`.
#[derive(Clone, Debug)]
pub struct FlowField<F> {
    pub width: u32,
    pub height: u32,
    pub cell_size: F,
    pub costs: Vec<u16>,
}

impl<F> FlowField<F> {
    pub open spec fn wf(&self) -> bool {
        &&& self.width as int * self.height as int <= u32::MAX
        &&& self.costs@.len() == self.width as int * self.height as int
    }

    /// A field on which every cell is unreachable.
    pub fn new(width: u32, height: u32, cell_size: F) -> (f: Self)
        requires
            width as int * height as int <= u32::MAX,
        ensures
            f.wf(),
            f.width == width,
            f.height == height,
            f.cell_size == cell_size,
            forall|i: int| 0 <= i < f.costs@.len() ==> f.costs@[i] == UNREACHABLE,
    {
        let n = (width * height) as usize;
        FlowField { width, height, cell_size, costs: vec![UNREACHABLE; n] }
    }

    /// Recomputes the costs toward `goals` around `obstacles` under `cost_map`.
    pub fn calculate(&mut self, goals: &Vec<GridCell>, obstacles: &Vec<GridCell>, cost_map: &Vec<u16>)
        requires
            old(self).wf(),
            cost_map@.len() == old(self).width as int * old(self).height as int,
        ensures
            final(self).wf(),
            final(self).width == old(self).width,
            final(self).height == old(self).height,
            final(self).cell_size == old(self).cell_size,
            field_solved(
                final(self).costs@,
                cost_map@,
                old(self).width as int,
                old(self).height as int,
                cell_indices(obstacles@, old(self).width as int, old(self).height as int),
                cell_indices(goals@, old(self).width as int, old(self).height as int),
            ),
    {
        self.costs = compute_costs(self.width, self.height, goals, obstacles, cost_map);
    }
}

} // verus!
