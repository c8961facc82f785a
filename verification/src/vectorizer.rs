//! Integer core of the state vectorizer: per-faction unit counts on a grid
//! and the own/enemy head count. Positions arrive already mapped to cells;
//! normalising counts into densities is float work left to the caller.

use vstd::prelude::*;
use std::collections::HashMap;

verus! {

broadcast use vstd::std_specs::hash::group_hash_axioms;

/// A unit's grid cell (column, row) and faction.
#[derive(Clone, Copy, Debug, PartialEq, Eq)]
pub struct CellUnit {
    pub cx: i32,
    pub cy: i32,
    pub faction: u32,
}

/// Whether the unit's cell lies in a `w` x `h` grid, the bounds read as `i32`.
pub open spec fn on_grid(u: CellUnit, w: u32, h: u32) -> bool {
    0 <= u.cx < (w as i32) && 0 <= u.cy < (h as i32)
}

/// Row-major index of the unit's cell.
pub open spec fn unit_cell(u: CellUnit, w: u32) -> int {
    u.cy * w + u.cx
}

/// Number of units of faction `f` on the grid in cell `i`.
pub open spec fn cell_count(units: Seq<CellUnit>, w: u32, h: u32, f: u32, i: int) -> nat
    decreases units.len(),
{
    if units.len() == 0 {
        0
    } else {
        let u = units.last();
        let rest = cell_count(units.drop_last(), w, h, f, i);
        if u.faction == f && on_grid(u, w, h) && unit_cell(u, w) == i { rest + 1 } else { rest }
    }
}

/// Whether some unit of faction `f` stands on the grid.
pub open spec fn on_grid_faction(units: Seq<CellUnit>, w: u32, h: u32, f: u32) -> bool {
    exists|k: int| 0 <= k < units.len() && (#[trigger] units[k]).faction == f && on_grid(units[k], w, h)
}

proof fn lemma_cell_count_bound(units: Seq<CellUnit>, w: u32, h: u32, f: u32, i: int)
    ensures
        cell_count(units, w, h, f, i) <= units.len(),
    decreases units.len(),
{
    if units.len() > 0 {
        lemma_cell_count_bound(units.drop_last(), w, h, f, i);
    }
}

/// Per faction with a unit on the grid, the number of its units in each cell
/// (row-major, `w * h` cells); factions with no unit on the grid get no entry.
pub fn build_count_maps(units: &Vec<CellUnit>, w: u32, h: u32) -> (maps: HashMap<u32, Vec<u32>>)
    requires
        w as int * h as int <= u32::MAX,
        units@.len() <= u32::MAX,
    ensures
        forall|f: u32| #[trigger] maps@.contains_key(f) <==> on_grid_faction(units@, w, h, f),
        forall|f: u32| #[trigger] maps@.contains_key(f) ==> maps@[f]@.len() == w as int * h as int,
        forall|f: u32, i: int| maps@.contains_key(f) && 0 <= i < w as int * h as int
            ==> #[trigger] maps@[f]@[i] == cell_count(units@, w, h, f, i),
{
    let total = (w * h) as usize;
    let mut maps: HashMap<u32, Vec<u32>> = HashMap::new();
    let n = units.len();
    let mut k: usize = 0;
    while k < n
        invariant
            n == units@.len(),
            n <= u32::MAX,
            k <= n,
            total == w as int * h as int,
            w as int * h as int <= u32::MAX,
            forall|f: u32| #[trigger] maps@.contains_key(f) <==> on_grid_faction(units@.take(k as int), w, h, f),
            forall|f: u32| #[trigger] maps@.contains_key(f) ==> maps@[f]@.len() == total,
            forall|f: u32, i: int| maps@.contains_key(f) && 0 <= i < total
                ==> #[trigger] maps@[f]@[i] == cell_count(units@.take(k as int), w, h, f, i),
        decreases n - k,
    {
        let u = units[k];
        let ghost pre = units@.take(k as int);
        let ghost post = units@.take(k + 1);
        assert(post.drop_last() =~= pre);
        assert(post.last() == u);
        let ghost before = maps@;
        if 0 <= u.cx && u.cx < w as i32 && 0 <= u.cy && u.cy < h as i32 {
            proof {
                lemma_below_as_i32(u.cx, w);
                lemma_below_as_i32(u.cy, h);
                assert(u.cy * w + u.cx < w as int * h as int) by (nonlinear_arith)
                    requires
                        0 <= u.cx < w,
                        0 <= u.cy < h,
                ;
            }
            let idx = (u.cy as u32 * w + u.cx as u32) as usize;
            let mut counts = match maps.remove(&u.faction) {
                Some(c) => c,
                None => vec![0u32; total],
            };
            proof {
                lemma_cell_count_bound(pre, w, h, u.faction, idx as int);
                if before.contains_key(u.faction) {
                    assert(counts@[idx as int] == cell_count(pre, w, h, u.faction, idx as int));
                } else {
                    assert forall|i: int| 0 <= i < total implies cell_count(pre, w, h, u.faction, i) == 0 by {
                        if cell_count(pre, w, h, u.faction, i) != 0 {
                            lemma_count_witness(pre, w, h, u.faction, i);
                        }
                    }
                }
            }
            let c = counts[idx];
            counts.set(idx, c + 1);
            maps.insert(u.faction, counts);
            proof {
                assert forall|f: u32| #[trigger] maps@.contains_key(f) <==> on_grid_faction(post, w, h, f) by {
                    if on_grid_faction(pre, w, h, f) {
                        let q = choose|q: int| 0 <= q < pre.len() && (#[trigger] pre[q]).faction == f && on_grid(pre[q], w, h);
                        assert(post[q] == pre[q]);
                    }
                    if f == u.faction {
                        assert(post[k as int] == u);
                    }
                    if on_grid_faction(post, w, h, f) && f != u.faction {
                        let q = choose|q: int| 0 <= q < post.len() && (#[trigger] post[q]).faction == f && on_grid(post[q], w, h);
                        assert(q < k);
                        assert(pre[q] == post[q]);
                    }
                }
                assert forall|f: u32, i: int| maps@.contains_key(f) && 0 <= i < total
                    implies #[trigger] maps@[f]@[i] == cell_count(post, w, h, f, i) by {
                    if f == u.faction && !before.contains_key(f) {
                        if cell_count(pre, w, h, f, i) != 0 {
                            lemma_count_witness(pre, w, h, f, i);
                        }
                    }
                }
            }
        } else {
            proof {
                assert forall|f: u32| #[trigger] maps@.contains_key(f) <==> on_grid_faction(post, w, h, f) by {
                    if on_grid_faction(pre, w, h, f) {
                        let q = choose|q: int| 0 <= q < pre.len() && (#[trigger] pre[q]).faction == f && on_grid(pre[q], w, h);
                        assert(post[q] == pre[q]);
                    }
                    if on_grid_faction(post, w, h, f) {
                        let q = choose|q: int| 0 <= q < post.len() && (#[trigger] post[q]).faction == f && on_grid(post[q], w, h);
                        assert(q < k);
                        assert(pre[q] == post[q]);
                    }
                }
            }
        }
        k = k + 1;
    }
    assert(units@.take(n as int) =~= units@);
    maps
}

/// A non-negative value below a bound read as `i32` is below the bound.
proof fn lemma_below_as_i32(v: i32, bound: u32)
    requires
        0 <= v,
        v < (bound as i32),
    ensures
        v < bound,
{
    assert(v < bound) by (bit_vector)
        requires
            0 <= v,
            v < (bound as i32),
    ;
}

/// A unit counted in a cell is a unit of that faction on the grid.
proof fn lemma_count_witness(units: Seq<CellUnit>, w: u32, h: u32, f: u32, i: int)
    requires
        cell_count(units, w, h, f, i) != 0,
    ensures
        on_grid_faction(units, w, h, f),
    decreases units.len(),
{
    let u = units.last();
    if u.faction == f && on_grid(u, w, h) && unit_cell(u, w) == i {
        assert(units[units.len() - 1] == u);
    } else {
        lemma_count_witness(units.drop_last(), w, h, f, i);
        let q = choose|q: int| 0 <= q < units.drop_last().len() && (#[trigger] units.drop_last()[q]).faction == f
            && on_grid(units.drop_last()[q], w, h);
        assert(units[q] == units.drop_last()[q]);
    }
}

/// Number of entries of `factions` equal to `f`.
pub open spec fn faction_count(factions: Seq<u32>, f: u32) -> nat
    decreases factions.len(),
{
    if factions.len() == 0 {
        0
    } else {
        faction_count(factions.drop_last(), f) + if factions.last() == f { 1nat } else { 0nat }
    }
}

/// Own and enemy head counts: units of `brain_faction`, and all others.
pub fn summary_counts(factions: &Vec<u32>, brain_faction: u32) -> (counts: (u32, u32))
    requires
        factions@.len() <= u32::MAX,
    ensures
        counts.0 == faction_count(factions@, brain_faction),
        counts.0 + counts.1 == factions@.len(),
{
    let mut own: u32 = 0;
    let mut enemy: u32 = 0;
    let n = factions.len();
    let mut i: usize = 0;
    assert(factions@.take(0) =~= Seq::<u32>::empty());
    while i < n
        invariant
            n == factions@.len(),
            n <= u32::MAX,
            i <= n,
            own == faction_count(factions@.take(i as int), brain_faction),
            own + enemy == i,
        decreases n - i,
    {
        assert(factions@.take(i + 1).drop_last() =~= factions@.take(i as int));
        if factions[i] == brain_faction {
            own = own + 1;
        } else {
            enemy = enemy + 1;
        }
        i = i + 1;
    }
    assert(factions@.take(n as int) =~= factions@);
    (own, enemy)
}

} // verus!
