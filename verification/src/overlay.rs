//! Zone cost overlays on a flow-field cost map, with the wall guard: an
//! impassable cell never becomes passable, and no overlay makes a new wall.
//! Which cells a zone covers and by how much it shifts their cost is float
//! work left to the caller.

use vstd::prelude::*;
use crate::terrain::WALL;

verus! {

/// Highest cost an overlay may give a cell: one below a wall.
pub const MAX_OVERLAY_COST: u16 = 0xFFFE;

/// `c` clamped to `1 ..= MAX_OVERLAY_COST`.
pub open spec fn clamp_cost(c: u16) -> u16 {
    if c < 1 { 1 } else if c > MAX_OVERLAY_COST { MAX_OVERLAY_COST } else { c }
}

/// Whether `v` is `adjust` of cost `c`, clamped to `1 ..= MAX_OVERLAY_COST`.
pub open spec fn adjusted_to<A: Fn(u16) -> u16>(adjust: A, c: u16, v: u16) -> bool {
    exists|r: u16| #[trigger] adjust.ensures((c,), r) && v == clamp_cost(r)
}

/// Applies one zone to the listed cells of `cost_map`: a wall is left as it
/// is, and every other listed cell gets `adjust` of its cost, clamped to
/// `1 ..= MAX_OVERLAY_COST`. Cells not listed keep their cost.
pub fn apply_zone_cells<A: Fn(u16) -> u16>(cost_map: &mut Vec<u16>, cells: &Vec<usize>, adjust: A)
    requires
        forall|c: u16| #[trigger] adjust.requires((c,)),
        forall|j: int| 0 <= j < cells@.len() ==> (#[trigger] cells@[j]) < old(cost_map)@.len(),
        cells@.no_duplicates(),
    ensures
        final(cost_map)@.len() == old(cost_map)@.len(),
        forall|i: usize| i < old(cost_map)@.len() && !cells@.contains(i)
            ==> #[trigger] final(cost_map)@[i as int] == old(cost_map)@[i as int],
        forall|i: usize| i < old(cost_map)@.len() && #[trigger] old(cost_map)@[i as int] == WALL
            ==> final(cost_map)@[i as int] == WALL,
        forall|i: usize| i < old(cost_map)@.len() && cells@.contains(i) && old(cost_map)@[i as int] != WALL
            ==> adjusted_to(adjust, old(cost_map)@[i as int], #[trigger] final(cost_map)@[i as int]),
        forall|i: usize| i < old(cost_map)@.len() && old(cost_map)@[i as int] != WALL ==> #[trigger] final(cost_map)@[i as int] != WALL,
{
    let ghost before = cost_map@;
    let n = cells.len();
    let mut j: usize = 0;
    while j < n
        invariant
            n == cells@.len(),
            j <= n,
            cost_map@.len() == before.len(),
            forall|c: u16| #[trigger] adjust.requires((c,)),
            forall|k: int| 0 <= k < cells@.len() ==> (#[trigger] cells@[k]) < before.len(),
            cells@.no_duplicates(),
            forall|i: usize| i < before.len() && !cells@.take(j as int).contains(i)
                ==> #[trigger] cost_map@[i as int] == before[i as int],
            forall|i: usize| i < before.len() && #[trigger] before[i as int] == WALL ==> cost_map@[i as int] == WALL,
            forall|i: usize| i < before.len() && cells@.take(j as int).contains(i) && before[i as int] != WALL
                ==> adjusted_to(adjust, before[i as int], #[trigger] cost_map@[i as int]),
            forall|i: usize| i < before.len() && before[i as int] != WALL ==> #[trigger] cost_map@[i as int] != WALL,
        decreases n - j,
    {
        let idx = cells[j];
        let ghost seen = cells@.take(j as int);
        let ghost mut wit: u16 = 0;
        assert(cells@.take(j + 1) =~= seen.push(idx));
        assert(!seen.contains(idx)) by {
            if seen.contains(idx) {
                let k = choose|k: int| 0 <= k < seen.len() && seen[k] == idx;
                assert(cells@[k] == cells@[j as int]);
            }
        }
        assert(cost_map@[idx as int] == before[idx as int]);
        let current = cost_map[idx];
        if current != WALL {
            let r = adjust(current);
            proof {
                wit = r;
            }
            let v = if r < 1 { 1 } else if r > MAX_OVERLAY_COST { MAX_OVERLAY_COST } else { r };
            cost_map.set(idx, v);
        }
        j = j + 1;
        assert forall|i: usize| i < before.len() && !cells@.take(j as int).contains(i)
            implies #[trigger] cost_map@[i as int] == before[i as int] by {
            if i != idx {
                assert(!seen.contains(i)) by {
                    if seen.contains(i) {
                        let k = choose|k: int| 0 <= k < seen.len() && seen[k] == i;
                        assert(cells@.take(j as int)[k] == i);
                    }
                }
            } else {
                assert(cells@.take(j as int)[j - 1] == idx);
            }
        }
        assert forall|i: usize| i < before.len() && cells@.take(j as int).contains(i) && before[i as int] != WALL
            implies adjusted_to(adjust, before[i as int], #[trigger] cost_map@[i as int]) by {
            if i != idx {
                let k = choose|k: int| 0 <= k < cells@.take(j as int).len() && cells@.take(j as int)[k] == i;
                if k == j - 1 {
                    assert(cells@.take(j as int)[k] == idx);
                }
                assert(k < j - 1);
                assert(seen[k] == i);
                assert(seen.contains(i));
            } else {
                assert(adjust.ensures((before[i as int],), wit));
                assert(cost_map@[i as int] == clamp_cost(wit));
            }
        }
    }
    assert(cells@.take(n as int) =~= cells@);
}

} // verus!
