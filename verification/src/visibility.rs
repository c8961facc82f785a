//! Per-faction fog of war, bit-packed: each `u32` word holds 32 cells,
//! cell `i` living in word `i / 32` at bit `i % 32`.
//!
//! `explored` records every cell a faction has ever seen; `visible`
//! records the cells it sees now. The cell size is carried as an opaque `F`.

use vstd::prelude::*;
use std::collections::HashMap;
use crate::keys::key_list;

verus! {

broadcast use vstd::std_specs::hash::group_hash_axioms;

/// Whether bit `b` of word `w` is set.
pub open spec fn word_bit(w: u32, b: u32) -> bool {
    (w >> b) & 1u32 == 1u32
}

/// Whether cell `i` is set in the packed grid `g`.
pub open spec fn cell_bit(g: Seq<u32>, i: int) -> bool {
    &&& 0 <= i
    &&& i / 32 < g.len()
    &&& word_bit(g[i / 32], (i % 32) as u32)
}

/// Number of words needed for `cells` cells.
pub open spec fn words_for(cells: int) -> int {
    (cells + 31) / 32
}

/// A packed grid of `n` zero words.
pub open spec fn zero_words(n: int) -> Seq<u32> {
    Seq::new(n as nat, |i: int| 0u32)
}

proof fn lemma_set_word_bit(w: u32, s: u32, b: u32)
    requires
        s < 32,
        b < 32,
    ensures
        word_bit(w | (1u32 << s), b) == (b == s || word_bit(w, b)),
{
    assert(((w | (1u32 << s)) >> b) & 1u32 == 1u32 <==> (b == s || (w >> b) & 1u32 == 1u32))
        by (bit_vector)
        requires
            s < 32,
            b < 32,
    ;
}

proof fn lemma_zero_word_bits(b: u32)
    requires
        b < 32,
    ensures
        !word_bit(0u32, b),
{
    assert((0u32 >> b) & 1u32 != 1u32) by (bit_vector);
}

/// Every cell of an all-zero grid is clear.
pub proof fn lemma_zero_grid_clear(g: Seq<u32>)
    requires
        forall|k: int| 0 <= k < g.len() ==> g[k] == 0,
    ensures
        forall|i: int| !#[trigger] cell_bit(g, i),
{
    assert forall|i: int| !#[trigger] cell_bit(g, i) by {
        if 0 <= i && i / 32 < g.len() {
            lemma_zero_word_bits((i % 32) as u32);
        }
    }
}

#[derive(Clone, Debug)]
pub struct FactionVisibility<F> {
    pub grid_width: u32,
    pub grid_height: u32,
    pub cell_size: F,
    /// `explored[faction]`: cells the faction has ever seen.
    pub explored: HashMap<u32, Vec<u32>>,
    /// `visible[faction]`: cells the faction sees now.
    pub visible: HashMap<u32, Vec<u32>>,
}

impl<F> FactionVisibility<F> {
    /// Words per faction grid.
    pub open spec fn grid_words(&self) -> int {
        words_for(self.grid_width as int * self.grid_height as int)
    }

    /// Every stored grid has one bit per cell (rounded up to whole words),
    /// and every row-major cell index fits in `u32`.
    pub open spec fn wf(&self) -> bool {
        &&& self.grid_width as int * self.grid_height as int <= u32::MAX
        &&& forall|f: u32| #[trigger] self.explored@.contains_key(f)
            ==> self.explored@[f]@.len() == self.grid_words()
        &&& forall|f: u32| #[trigger] self.visible@.contains_key(f)
            ==> self.visible@[f]@.len() == self.grid_words()
    }

    /// Number of `u32` words needed for a `grid_width` by `grid_height` grid.
    pub fn bitpack_len(grid_width: u32, grid_height: u32) -> (n: usize)
        requires
            grid_width as int * grid_height as int <= u32::MAX,
        ensures
            n == words_for(grid_width as int * grid_height as int),
    {
        let cells = (grid_width * grid_height) as usize;
        if cells % 32 == 0 {
            cells / 32
        } else {
            cells / 32 + 1
        }
    }

    /// Marks cell `index`.
    pub fn set_bit(grid: &mut Vec<u32>, index: usize)
        requires
            index / 32 < old(grid)@.len(),
        ensures
            final(grid)@.len() == old(grid)@.len(),
            final(grid)@ == old(grid)@.update(
                (index / 32) as int,
                old(grid)@[(index / 32) as int] | (1u32 << ((index % 32) as u32)),
            ),
            forall|i: int| #[trigger] cell_bit(final(grid)@, i)
                == (i == index || cell_bit(old(grid)@, i)),
    {
        let w = index / 32;
        let s = (index % 32) as u32;
        let old_word = grid[w];
        grid.set(w, old_word | (1u32 << s));
        proof {
            assert forall|i: int| #[trigger] cell_bit(grid@, i)
                == (i == index || cell_bit(old(grid)@, i)) by {
                if 0 <= i && i / 32 < grid@.len() {
                    if i / 32 == w as int {
                        lemma_set_word_bit(old_word, s, (i % 32) as u32);
                        assert((i % 32 == index % 32 && i / 32 == index / 32) ==> i == index);
                    }
                }
            }
        }
    }

    /// Whether cell `index` is marked.
    pub fn get_bit(grid: &Vec<u32>, index: usize) -> (b: bool)
        requires
            index / 32 < grid@.len(),
        ensures
            b == cell_bit(grid@, index as int),
    {
        (grid[index / 32] >> ((index % 32) as u32)) & 1 == 1
    }

    /// Clears every cell.
    pub fn clear_all(grid: &mut Vec<u32>)
        ensures
            final(grid)@.len() == old(grid)@.len(),
            forall|k: int| 0 <= k < final(grid)@.len() ==> final(grid)@[k] == 0,
            forall|i: int| !#[trigger] cell_bit(final(grid)@, i),
    {
        let n = grid.len();
        let mut k: usize = 0;
        while k < n
            invariant
                n == grid@.len(),
                k <= n,
                forall|j: int| 0 <= j < k ==> grid@[j] == 0,
            decreases n - k,
        {
            grid.set(k, 0);
            k = k + 1;
        }
        proof {
            lemma_zero_grid_clear(grid@);
        }
    }

    /// A fog-of-war state with no faction registered yet.
    pub fn new(grid_width: u32, grid_height: u32, cell_size: F) -> (v: Self)
        ensures
            v.grid_width == grid_width,
            v.grid_height == grid_height,
            v.cell_size == cell_size,
            v.explored@ == Map::<u32, Vec<u32>>::empty(),
            v.visible@ == Map::<u32, Vec<u32>>::empty(),
    {
        FactionVisibility {
            grid_width,
            grid_height,
            cell_size,
            explored: HashMap::new(),
            visible: HashMap::new(),
        }
    }

    /// Gives `faction_id` all-clear grids unless it already has them;
    /// existing grids are left untouched.
    pub fn ensure_faction(&mut self, faction_id: u32)
        requires
            old(self).wf(),
        ensures
            final(self).wf(),
            final(self).grid_width == old(self).grid_width,
            final(self).grid_height == old(self).grid_height,
            final(self).cell_size == old(self).cell_size,
            final(self).explored@.dom() == old(self).explored@.dom().insert(faction_id),
            final(self).visible@.dom() == old(self).visible@.dom().insert(faction_id),
            forall|f: u32| #[trigger] old(self).explored@.contains_key(f)
                ==> final(self).explored@[f] == old(self).explored@[f],
            forall|f: u32| #[trigger] old(self).visible@.contains_key(f)
                ==> final(self).visible@[f] == old(self).visible@[f],
            !old(self).explored@.contains_key(faction_id)
                ==> final(self).explored@[faction_id]@ == zero_words(old(self).grid_words()),
            !old(self).visible@.contains_key(faction_id)
                ==> final(self).visible@[faction_id]@ == zero_words(old(self).grid_words()),
    {
        let size = Self::bitpack_len(self.grid_width, self.grid_height);
        if !self.explored.contains_key(&faction_id) {
            let g: Vec<u32> = vec![0u32; size];
            assert(g@ =~= zero_words(size as int));
            self.explored.insert(faction_id, g);
        }
        if !self.visible.contains_key(&faction_id) {
            let g: Vec<u32> = vec![0u32; size];
            assert(g@ =~= zero_words(size as int));
            self.visible.insert(faction_id, g);
        }
        assert(self.explored@.dom() =~= old(self).explored@.dom().insert(faction_id));
        assert(self.visible@.dom() =~= old(self).visible@.dom().insert(faction_id));
    }

    /// Forgets what every faction has explored; current sight is kept.
    pub fn reset_explored(&mut self)
        requires
            old(self).wf(),
        ensures
            final(self).wf(),
            final(self).grid_width == old(self).grid_width,
            final(self).grid_height == old(self).grid_height,
            final(self).cell_size == old(self).cell_size,
            final(self).visible@ == old(self).visible@,
            final(self).explored@.dom() == old(self).explored@.dom(),
            forall|f: u32| #[trigger] final(self).explored@.contains_key(f)
                ==> final(self).explored@[f]@ == zero_words(old(self).grid_words()),
    {
        let keys = key_list(&self.explored);
        let n = keys.len();
        let mut k: usize = 0;
        while k < n
            invariant
                self.wf(),
                n == keys@.len(),
                k <= n,
                keys@.to_set() == old(self).explored@.dom(),
                keys@.no_duplicates(),
                self.grid_width == old(self).grid_width,
                self.grid_height == old(self).grid_height,
                self.cell_size == old(self).cell_size,
                self.visible@ == old(self).visible@,
                self.explored@.dom() == old(self).explored@.dom(),
                forall|j: int| 0 <= j < k ==> #[trigger] self.explored@[keys@[j]]@
                    == zero_words(old(self).grid_words()),
            decreases n - k,
        {
            let f = keys[k];
            assert(keys@.to_set().contains(f));
            let mut g = self.explored.remove(&f).unwrap();
            Self::clear_all(&mut g);
            assert(g@ =~= zero_words(old(self).grid_words()));
            self.explored.insert(f, g);
            assert(self.explored@.dom() =~= old(self).explored@.dom());
            k = k + 1;
            assert forall|j: int| 0 <= j < k implies #[trigger] self.explored@[keys@[j]]@
                == zero_words(old(self).grid_words()) by {
                if j < k - 1 {
                    assert(keys@[j] != f);
                }
            }
        }
        assert forall|f: u32| #[trigger] self.explored@.contains_key(f)
            implies self.explored@[f]@ == zero_words(old(self).grid_words()) by {
            assert(keys@.to_set().contains(f));
            let j = choose|j: int| 0 <= j < keys@.len() && keys@[j] == f;
        }
    }
}

} // verus!
