//! Per-tick fog-of-war update: every faction sees the non-wall cells
//! within the vision disc of each of its occupied cells.
//!
//! Callers reduce entities to one `VisionSource` per (faction, cell),
//! with the vision radius already expressed in whole cells.

use vstd::prelude::*;
use crate::grid::GridCell;
use crate::keys::key_list;
use crate::terrain::{TerrainGrid, WALL};
use crate::visibility::{FactionVisibility, cell_bit, lemma_zero_grid_clear};

verus! {

broadcast use vstd::std_specs::hash::group_hash_axioms;

/// An occupied cell of a faction and the vision radius (in cells) around it.
#[derive(Clone, Copy, Debug, PartialEq, Eq)]
pub struct VisionSource {
    pub faction_id: u32,
    pub cell_x: i32,
    pub cell_y: i32,
    pub cell_radius: i32,
}

/// Largest radius whose squared distances still fit in `i32`.
pub const MAX_CELL_RADIUS: i32 = 32767;

impl VisionSource {
    /// The scan around the source stays inside `i32` arithmetic.
    pub open spec fn fits(self) -> bool {
        self.cell_radius < 0 || {
            &&& self.cell_radius <= MAX_CELL_RADIUS
            &&& self.cell_x - self.cell_radius >= i32::MIN
            &&& self.cell_x + self.cell_radius <= i32::MAX
            &&& self.cell_y - self.cell_radius >= i32::MIN
            &&& self.cell_y + self.cell_radius <= i32::MAX
        }
    }

    /// Whether the source sees cell (`x`, `y`): within its disc and not a wall.
    pub open spec fn sees<G>(self, terrain: TerrainGrid<G>, x: int, y: int) -> bool {
        let dx = x - self.cell_x;
        let dy = y - self.cell_y;
        &&& self.cell_radius >= 0
        &&& dx * dx + dy * dy <= self.cell_radius * self.cell_radius
        &&& terrain.spec_hard_cost(GridCell { x: x as i32, y: y as i32 }) != WALL
    }
}

/// Whether (`x`, `y`) lies in a `w` by `h` grid, with the dimensions read as `i32`.
pub open spec fn vis_in_bounds(w: u32, h: u32, x: int, y: int) -> bool {
    0 <= x < (w as i32) && 0 <= y < (h as i32)
}

/// Whether source `s` marks packed cell `i` of a `w` by `h` grid.
pub open spec fn marks<G>(s: VisionSource, terrain: TerrainGrid<G>, w: u32, h: u32, i: int) -> bool {
    &&& 0 <= i < w as int * h as int
    &&& vis_in_bounds(w, h, i % (w as int), i / (w as int))
    &&& s.sees(terrain, i % (w as int), i / (w as int))
}

/// Whether some source of faction `f` marks packed cell `i`.
pub open spec fn seen_by<G>(sources: Seq<VisionSource>, f: u32, terrain: TerrainGrid<G>, w: u32, h: u32, i: int) -> bool
    decreases sources.len(),
{
    if sources.len() == 0 {
        false
    } else {
        seen_by(sources.drop_last(), f, terrain, w, h, i)
            || (sources.last().faction_id == f && marks(sources.last(), terrain, w, h, i))
    }
}

/// The factions that own at least one source.
pub open spec fn source_factions(sources: Seq<VisionSource>) -> Set<u32>
    decreases sources.len(),
{
    if sources.len() == 0 {
        Set::empty()
    } else {
        source_factions(sources.drop_last()).insert(sources.last().faction_id)
    }
}

/// `seen_by` holds exactly when one of the sources of faction `f` marks the cell.
pub proof fn lemma_seen_by_exists<G>(sources: Seq<VisionSource>, f: u32, terrain: TerrainGrid<G>, w: u32, h: u32, i: int)
    ensures
        seen_by(sources, f, terrain, w, h, i) <==> exists|j: int|
            0 <= j < sources.len() && #[trigger] sources[j].faction_id == f
                && marks(sources[j], terrain, w, h, i),
    decreases sources.len(),
{
    if sources.len() > 0 {
        let rest = sources.drop_last();
        lemma_seen_by_exists(rest, f, terrain, w, h, i);
        if seen_by(sources, f, terrain, w, h, i) {
            if seen_by(rest, f, terrain, w, h, i) {
                let j = choose|j: int| 0 <= j < rest.len() && #[trigger] rest[j].faction_id == f
                    && marks(rest[j], terrain, w, h, i);
                assert(sources[j] == rest[j]);
            } else {
                assert(sources[sources.len() - 1].faction_id == f);
            }
        }
        if exists|j: int| 0 <= j < sources.len() && #[trigger] sources[j].faction_id == f
            && marks(sources[j], terrain, w, h, i) {
            let j = choose|j: int| 0 <= j < sources.len() && #[trigger] sources[j].faction_id == f
                && marks(sources[j], terrain, w, h, i);
            if j < sources.len() - 1 {
                assert(rest[j] == sources[j]);
            }
        }
    }
}

proof fn lemma_coords(w: int, x: int, y: int)
    requires
        0 <= x < w,
        0 <= y,
    ensures
        (y * w + x) % w == x,
        (y * w + x) / w == y,
        0 <= y * w + x,
{
    assert(0 <= y * w) by (nonlinear_arith)
        requires
            0 <= y,
            0 <= w,
    ;
    vstd::arithmetic::div_mod::lemma_fundamental_div_mod_converse(y * w + x, w, y, x);
}

proof fn lemma_same_coords(w: int, i: int, x: int, y: int)
    requires
        0 <= x < w,
        0 <= i,
        i % w == x,
        i / w == y,
    ensures
        i == y * w + x,
{
    vstd::arithmetic::div_mod::lemma_fundamental_div_mod(i, w);
    assert(w * (i / w) == y * w) by (nonlinear_arith)
        requires
            i / w == y,
    ;
}

proof fn lemma_square_bound(d: int, r: int)
    requires
        -r <= d <= r,
        0 <= r <= MAX_CELL_RADIUS,
    ensures
        0 <= d * d <= r * r,
        r * r <= 1073676289,
{
    assert(0 <= d * d <= r * r) by (nonlinear_arith)
        requires
            -r <= d <= r,
    ;
    assert(r * r <= 32767 * 32767) by (nonlinear_arith)
        requires
            0 <= r <= 32767,
    ;
}

/// Within the disc of a source, both offsets lie in `-r..=r`.
proof fn lemma_marks_in_box<G>(s: VisionSource, t: TerrainGrid<G>, w: u32, h: u32, i: int)
    requires
        marks(s, t, w, h, i),
    ensures
        -s.cell_radius <= i % (w as int) - s.cell_x <= s.cell_radius,
        -s.cell_radius <= i / (w as int) - s.cell_y <= s.cell_radius,
{
    let r = s.cell_radius as int;
    let ddx = i % (w as int) - s.cell_x;
    let ddy = i / (w as int) - s.cell_y;
    assert(0 <= ddx * ddx && 0 <= ddy * ddy) by (nonlinear_arith);
    assert(-r <= ddx <= r) by (nonlinear_arith)
        requires
            ddx * ddx <= r * r,
            0 <= r,
    ;
    assert(-r <= ddy <= r) by (nonlinear_arith)
        requires
            ddy * ddy <= r * r,
            0 <= r,
    ;
}

/// Marks, in both grids, every cell the source sees.
fn stamp_source<G>(
    vis_grid: &mut Vec<u32>,
    exp_grid: &mut Vec<u32>,
    s: VisionSource,
    terrain: &TerrainGrid<G>,
    w: u32,
    h: u32,
)
    requires
        terrain.wf(),
        s.fits(),
        w as int * h as int <= u32::MAX,
        old(vis_grid)@.len() == (w as int * h as int + 31) / 32,
        old(exp_grid)@.len() == (w as int * h as int + 31) / 32,
    ensures
        final(vis_grid)@.len() == old(vis_grid)@.len(),
        final(exp_grid)@.len() == old(exp_grid)@.len(),
        forall|i: int| #[trigger] cell_bit(final(vis_grid)@, i)
            == (cell_bit(old(vis_grid)@, i) || marks(s, *terrain, w, h, i)),
        forall|i: int| #[trigger] cell_bit(final(exp_grid)@, i)
            == (cell_bit(old(exp_grid)@, i) || marks(s, *terrain, w, h, i)),
{
    let r = s.cell_radius;
    if r < 0 {
        return;
    }
    let cx = s.cell_x;
    let cy = s.cell_y;
    let ghost wi = w as int;
    let ghost t = *terrain;
    let mut dy: i32 = -r;
    proof {
        assert forall|i: int| marks(s, t, w, h, i) implies i / wi - cy >= dy by {
            lemma_marks_in_box(s, t, w, h, i);
        }
    }
    while dy <= r
        invariant
            terrain.wf(),
            t == *terrain,
            wi == w as int,
            s.fits(),
            0 <= r <= MAX_CELL_RADIUS,
            r == s.cell_radius,
            cx == s.cell_x,
            cy == s.cell_y,
            -r <= dy <= r + 1,
            w as int * h as int <= u32::MAX,
            vis_grid@.len() == old(vis_grid)@.len(),
            exp_grid@.len() == old(exp_grid)@.len(),
            vis_grid@.len() == (w as int * h as int + 31) / 32,
            exp_grid@.len() == (w as int * h as int + 31) / 32,
            forall|i: int| #[trigger] cell_bit(vis_grid@, i)
                == (cell_bit(old(vis_grid)@, i) || (marks(s, t, w, h, i) && i / wi - cy < dy)),
            forall|i: int| #[trigger] cell_bit(exp_grid@, i)
                == (cell_bit(old(exp_grid)@, i) || (marks(s, t, w, h, i) && i / wi - cy < dy)),
        decreases r + 1 - dy,
    {
        let mut dx: i32 = -r;
        proof {
            assert forall|i: int| marks(s, t, w, h, i) implies i % wi - cx >= dx by {
                lemma_marks_in_box(s, t, w, h, i);
            }
        }
        while dx <= r
            invariant
                terrain.wf(),
                t == *terrain,
                wi == w as int,
                s.fits(),
                0 <= r <= MAX_CELL_RADIUS,
                r == s.cell_radius,
                cx == s.cell_x,
                cy == s.cell_y,
                -r <= dy <= r,
                -r <= dx <= r + 1,
                w as int * h as int <= u32::MAX,
                vis_grid@.len() == old(vis_grid)@.len(),
                exp_grid@.len() == old(exp_grid)@.len(),
                vis_grid@.len() == (w as int * h as int + 31) / 32,
                exp_grid@.len() == (w as int * h as int + 31) / 32,
            exp_grid@.len() == (w as int * h as int + 31) / 32,
                forall|i: int| #[trigger] cell_bit(vis_grid@, i)
                    == (cell_bit(old(vis_grid)@, i) || (marks(s, t, w, h, i) && (i / wi - cy < dy
                        || (i / wi - cy == dy && i % wi - cx < dx)))),
                forall|i: int| #[trigger] cell_bit(exp_grid@, i)
                    == (cell_bit(old(exp_grid)@, i) || (marks(s, t, w, h, i) && (i / wi - cy < dy
                        || (i / wi - cy == dy && i % wi - cx < dx)))),
            decreases r + 1 - dx,
        {
            let nx = cx + dx;
            let ny = cy + dy;
            let in_grid = !(nx < 0 || ny < 0 || nx >= w as i32 || ny >= h as i32);
            let ghost vis_before = vis_grid@;
            let ghost exp_before = exp_grid@;
            let ghost dist_ok = dx * dx + dy * dy <= r * r;
            if in_grid {
                let cell = GridCell { x: nx, y: ny };
                if terrain.get_hard_cost(cell) != WALL {
                    proof {
                        lemma_square_bound(dx as int, r as int);
                        lemma_square_bound(dy as int, r as int);
                    }
                    if dx * dx + dy * dy <= r * r {
                        proof {
                            assert(nx < w as int);
                            assert(ny < h as int);
                            lemma_coords(wi, nx as int, ny as int);
                            assert(ny * wi + nx < h as int * wi) by (nonlinear_arith)
                                requires
                                    0 <= nx < wi,
                                    0 <= ny < h as int,
                            ;
                            assert(h as int * wi == wi * h as int) by (nonlinear_arith);
                        }
                        let idx = (ny as u32 * w + nx as u32) as usize;
                        proof {
                            assert(idx as int == ny * wi + nx);
                            assert(idx / 32 < vis_grid@.len()) by {
                                assert(idx < w as int * h as int);
                            }
                        }
                        FactionVisibility::<G>::set_bit(vis_grid, idx);
                        FactionVisibility::<G>::set_bit(exp_grid, idx);
                    }
                }
            }
            proof {
                assert forall|i: int| #[trigger] cell_bit(vis_grid@, i)
                    == (cell_bit(old(vis_grid)@, i) || (marks(s, t, w, h, i) && (i / wi - cy < dy
                        || (i / wi - cy == dy && i % wi - cx < dx + 1)))) by {
                    if marks(s, t, w, h, i) && i / wi - cy == dy && i % wi - cx == dx {
                        lemma_same_coords(wi, i, nx as int, ny as int);
                    }
                    if in_grid && terrain.spec_hard_cost(GridCell { x: nx, y: ny }) != WALL && dist_ok {
                        lemma_coords(wi, nx as int, ny as int);
                    }
                }
                assert forall|i: int| #[trigger] cell_bit(exp_grid@, i)
                    == (cell_bit(old(exp_grid)@, i) || (marks(s, t, w, h, i) && (i / wi - cy < dy
                        || (i / wi - cy == dy && i % wi - cx < dx + 1)))) by {
                    if marks(s, t, w, h, i) && i / wi - cy == dy && i % wi - cx == dx {
                        lemma_same_coords(wi, i, nx as int, ny as int);
                    }
                    if in_grid && terrain.spec_hard_cost(GridCell { x: nx, y: ny }) != WALL && dist_ok {
                        lemma_coords(wi, nx as int, ny as int);
                    }
                }
            }
            dx = dx + 1;
        }
        proof {
            assert forall|i: int| marks(s, t, w, h, i) implies i % wi - cx <= r by {
                lemma_marks_in_box(s, t, w, h, i);
            }
        }
        dy = dy + 1;
    }
    proof {
        assert forall|i: int| marks(s, t, w, h, i) implies i / wi - cy <= r by {
            lemma_marks_in_box(s, t, w, h, i);
        }
    }
}

/// A cell marked by some source of faction `f` belongs to a faction that owns a source.
proof fn lemma_seen_has_faction<G>(sources: Seq<VisionSource>, f: u32, terrain: TerrainGrid<G>, w: u32, h: u32, i: int)
    requires
        seen_by(sources, f, terrain, w, h, i),
    ensures
        source_factions(sources).contains(f),
    decreases sources.len(),
{
    if seen_by(sources.drop_last(), f, terrain, w, h, i) {
        lemma_seen_has_faction(sources.drop_last(), f, terrain, w, h, i);
    }
}

/// Clears the current sight of every registered faction.
fn clear_visible<F>(vis: &mut FactionVisibility<F>)
    requires
        old(vis).wf(),
    ensures
        final(vis).wf(),
        final(vis).grid_width == old(vis).grid_width,
        final(vis).grid_height == old(vis).grid_height,
        final(vis).cell_size == old(vis).cell_size,
        final(vis).explored@ == old(vis).explored@,
        final(vis).visible@.dom() == old(vis).visible@.dom(),
        forall|f: u32, i: int| #[trigger] final(vis).visible@.contains_key(f)
            ==> !#[trigger] cell_bit(final(vis).visible@[f]@, i),
{
    let keys = key_list(&vis.visible);
    let n = keys.len();
    let mut k: usize = 0;
    while k < n
        invariant
            vis.wf(),
            n == keys@.len(),
            k <= n,
            keys@.to_set() == old(vis).visible@.dom(),
            keys@.no_duplicates(),
            vis.grid_width == old(vis).grid_width,
            vis.grid_height == old(vis).grid_height,
            vis.cell_size == old(vis).cell_size,
            vis.explored@ == old(vis).explored@,
            vis.visible@.dom() == old(vis).visible@.dom(),
            forall|j: int, i: int| 0 <= j < k ==> !#[trigger] cell_bit(vis.visible@[#[trigger] keys@[j]]@, i),
        decreases n - k,
    {
        let f = keys[k];
        assert(keys@.to_set().contains(f));
        let mut g = vis.visible.remove(&f).unwrap();
        FactionVisibility::<F>::clear_all(&mut g);
        vis.visible.insert(f, g);
        assert(vis.visible@.dom() =~= old(vis).visible@.dom());
        k = k + 1;
        assert forall|j: int, i: int| 0 <= j < k implies !#[trigger] cell_bit(vis.visible@[#[trigger] keys@[j]]@, i) by {
            if j < k - 1 {
                assert(keys@[j] != f);
            }
        }
    }
    assert forall|f: u32, i: int| #[trigger] vis.visible@.contains_key(f)
        implies !#[trigger] cell_bit(vis.visible@[f]@, i) by {
        assert(keys@.to_set().contains(f));
        let j = choose|j: int| 0 <= j < keys@.len() && keys@[j] == f;
        assert(!cell_bit(vis.visible@[keys@[j]]@, i));
    }
}

/// Recomputes every faction's current sight from `sources` and adds it to
/// what the faction has explored. A faction owning a source gets grids if it had none.
pub fn update_visibility<F, G>(vis: &mut FactionVisibility<F>, terrain: &TerrainGrid<G>, sources: &Vec<VisionSource>)
    requires
        old(vis).wf(),
        terrain.wf(),
        forall|k: int| 0 <= k < sources@.len() ==> (#[trigger] sources@[k]).fits(),
    ensures
        final(vis).wf(),
        final(vis).grid_width == old(vis).grid_width,
        final(vis).grid_height == old(vis).grid_height,
        final(vis).cell_size == old(vis).cell_size,
        final(vis).visible@.dom() == old(vis).visible@.dom() + source_factions(sources@),
        final(vis).explored@.dom() == old(vis).explored@.dom() + source_factions(sources@),
        forall|f: u32, i: int| #[trigger] final(vis).visible@.contains_key(f)
            ==> (#[trigger] cell_bit(final(vis).visible@[f]@, i)
                == seen_by(sources@, f, *terrain, old(vis).grid_width, old(vis).grid_height, i)),
        forall|f: u32, i: int| #[trigger] final(vis).explored@.contains_key(f)
            ==> (#[trigger] cell_bit(final(vis).explored@[f]@, i)
                == ((old(vis).explored@.contains_key(f) && cell_bit(old(vis).explored@[f]@, i))
                    || seen_by(sources@, f, *terrain, old(vis).grid_width, old(vis).grid_height, i))),
        forall|f: u32, i: int| #[trigger] final(vis).explored@.contains_key(f)
            && old(vis).explored@.contains_key(f) && cell_bit(old(vis).explored@[f]@, i)
            ==> #[trigger] cell_bit(final(vis).explored@[f]@, i),
        forall|f: u32, i: int| final(vis).visible@.contains_key(f) && final(vis).explored@.contains_key(f)
            && #[trigger] cell_bit(final(vis).visible@[f]@, i) ==> #[trigger] cell_bit(final(vis).explored@[f]@, i),
{
    clear_visible(vis);
    let w = vis.grid_width;
    let h = vis.grid_height;
    let ghost t = *terrain;
    let ghost vis0 = old(vis).visible@.dom();
    let ghost exp0 = old(vis).explored@;
    let n = sources.len();
    let mut k: usize = 0;
    assert(sources@.take(0) =~= Seq::<VisionSource>::empty());
    assert(vis0 + Set::<u32>::empty() =~= vis0);
    assert(exp0.dom() + Set::<u32>::empty() =~= exp0.dom());
    while k < n
        invariant
            vis.wf(),
            terrain.wf(),
            t == *terrain,
            n == sources@.len(),
            k <= n,
            w == vis.grid_width,
            h == vis.grid_height,
            w == old(vis).grid_width,
            h == old(vis).grid_height,
            vis.cell_size == old(vis).cell_size,
            forall|j: int| 0 <= j < sources@.len() ==> (#[trigger] sources@[j]).fits(),
            vis.visible@.dom() == vis0 + source_factions(sources@.take(k as int)),
            vis.explored@.dom() == exp0.dom() + source_factions(sources@.take(k as int)),
            forall|f: u32, i: int| #[trigger] vis.visible@.contains_key(f)
                ==> (#[trigger] cell_bit(vis.visible@[f]@, i)
                    == seen_by(sources@.take(k as int), f, t, w, h, i)),
            forall|f: u32, i: int| #[trigger] vis.explored@.contains_key(f)
                ==> (#[trigger] cell_bit(vis.explored@[f]@, i)
                    == ((exp0.contains_key(f) && cell_bit(exp0[f]@, i))
                        || seen_by(sources@.take(k as int), f, t, w, h, i))),
        decreases n - k,
    {
        let s = sources[k];
        let f = s.faction_id;
        let ghost before = *vis;
        let ghost pre = sources@.take(k as int);
        let ghost post = sources@.take(k + 1);
        assert(post.drop_last() =~= pre);
        assert(post.last() == s);
        vis.ensure_faction(f);
        proof {
            if !before.visible@.contains_key(f) {
                lemma_zero_grid_clear(vis.visible@[f]@);
            }
            if !before.explored@.contains_key(f) {
                lemma_zero_grid_clear(vis.explored@[f]@);
            }
        }
        let ghost mid = *vis;
        let mut vg = vis.visible.remove(&f).unwrap();
        let mut eg = vis.explored.remove(&f).unwrap();
        stamp_source(&mut vg, &mut eg, s, terrain, w, h);
        vis.visible.insert(f, vg);
        vis.explored.insert(f, eg);
        k = k + 1;
        proof {
            assert(vis.visible@.dom() =~= mid.visible@.dom());
            assert(vis.explored@.dom() =~= mid.explored@.dom());
            assert(source_factions(post) == source_factions(pre).insert(f));
            assert(vis.visible@.dom() =~= vis0 + source_factions(post));
            assert(vis.explored@.dom() =~= exp0.dom() + source_factions(post));
            assert forall|g: u32, i: int| #[trigger] vis.visible@.contains_key(g)
                implies (#[trigger] cell_bit(vis.visible@[g]@, i) == seen_by(post, g, t, w, h, i)) by {
                if g == f {
                    if !before.visible@.contains_key(f) {
                        if seen_by(pre, f, t, w, h, i) {
                            lemma_seen_has_faction(pre, f, t, w, h, i);
                        }
                    }
                }
            }
            assert forall|g: u32, i: int| #[trigger] vis.explored@.contains_key(g)
                implies (#[trigger] cell_bit(vis.explored@[g]@, i)
                    == ((exp0.contains_key(g) && cell_bit(exp0[g]@, i)) || seen_by(post, g, t, w, h, i))) by {
                if g == f {
                    if !before.explored@.contains_key(f) {
                        if seen_by(pre, f, t, w, h, i) {
                            lemma_seen_has_faction(pre, f, t, w, h, i);
                        }
                    }
                }
            }
        }
    }
    assert(sources@.take(n as int) =~= sources@);
}

} // verus!
