//! Counting the blocks the opaque cube path draws on a uniform grid.
//!
//! A block whose six face neighbours are all occupied cells is hidden inside
//! the model and culled; the count of those left predicts the instances the
//! opaque path uploads. Placing each block's lower corner on the grid is
//! floating point and is the caller's: this module takes the rounded cell
//! numbers and does the rest on integers.
use vstd::prelude::*;

use crate::model::block_model::{RegularBlockBounds, RenderableBlockIndices};

verus! {

/// Upper bound on grid cells, so the occupancy bitset stays modest
/// (1 << 29 bits = 64 MiB). Larger grids fall back to hashing.
pub const MAX_UNIFORM_GRID_CELLS: usize = 536870912;

/// The integer shape of a uniform grid that every block of a model was found
/// to lie on: `dims` cells along x, y and z.
#[derive(Clone, Copy, Debug)]
pub struct UniformBlockGrid {
    pub dims: [usize; 3],
}

/// Number of cells of a grid of shape `dims`.
pub open spec fn cells_of(dims: [usize; 3]) -> int {
    dims[0] * dims[1] * dims[2]
}

/// Cell `c` as a triple of integers.
pub open spec fn cell(c: [usize; 3]) -> (int, int, int) {
    (c[0] as int, c[1] as int, c[2] as int)
}

/// Whether the cell at (`t.0`, `t.1`, `t.2`) lies inside a grid of shape
/// `dims`.
pub open spec fn inside(dims: [usize; 3], t: (int, int, int)) -> bool {
    0 <= t.0 < dims[0] && 0 <= t.1 < dims[1] && 0 <= t.2 < dims[2]
}

/// Index of the cell at (`t.0`, `t.1`, `t.2`) in x-fastest order.
pub open spec fn index_of(dims: [usize; 3], t: (int, int, int)) -> int {
    (t.2 * dims[1] + t.1) * dims[0] + t.0
}

/// Whether cell `c` lies inside a grid of shape `dims`.
pub open spec fn in_grid(dims: [usize; 3], c: [usize; 3]) -> bool {
    inside(dims, cell(c))
}

/// Index of cell `c` in x-fastest order.
pub open spec fn grid_index(dims: [usize; 3], c: [usize; 3]) -> int {
    index_of(dims, cell(c))
}

/// The cell next to `c` along `axis`, on the side of `delta` (-1 or 1).
pub open spec fn neighbour(c: [usize; 3], axis: int, delta: int) -> (int, int, int) {
    if axis == 0 {
        (c[0] + delta, c[1] as int, c[2] as int)
    } else if axis == 1 {
        (c[0] as int, c[1] + delta, c[2] as int)
    } else {
        (c[0] as int, c[1] as int, c[2] + delta)
    }
}

/// Distance in x-fastest order between neighbours along `axis`.
pub open spec fn stride_of(dims: [usize; 3], axis: int) -> int {
    if axis == 0 {
        1
    } else if axis == 1 {
        dims[0] as int
    } else {
        dims[0] * dims[1]
    }
}

/// `d - 2`, or 0 for a dimension of fewer than two cells.
pub open spec fn inner_extent(d: usize) -> int {
    if d >= 2 {
        d - 2
    } else {
        0
    }
}

/// Cells of a full grid that have a neighbour on every side.
pub open spec fn interior_cells(dims: [usize; 3]) -> int {
    inner_extent(dims[0]) * inner_extent(dims[1]) * inner_extent(dims[2])
}

/// The grid cell of block `b`, from the rounded cell numbers of its lower
/// corner: none when the block does not exist, could not be placed, or lies
/// outside the grid.
pub open spec fn located(cells: Seq<Option<[usize; 3]>>, dims: [usize; 3], b: int) -> Option<[usize; 3]> {
    if 0 <= b < cells.len() {
        match cells[b] {
            Some(c) => if in_grid(dims, c) {
                Some(c)
            } else {
                None
            },
            None => None,
        }
    } else {
        None
    }
}

/// Whether every block of `order` has a grid cell.
pub open spec fn all_located(cells: Seq<Option<[usize; 3]>>, dims: [usize; 3], order: Seq<usize>) -> bool {
    forall|k: int| 0 <= k < order.len() ==> (#[trigger] located(cells, dims, order[k] as int)) is Some
}

/// The grid cells of the blocks of `order`, in that order.
pub open spec fn placed(cells: Seq<Option<[usize; 3]>>, dims: [usize; 3], order: Seq<usize>) -> Seq<[usize; 3]> {
    Seq::new(order.len(), |k: int| located(cells, dims, order[k] as int).unwrap())
}

/// Whether some block sits in the cell at `t`.
pub open spec fn occupied(placed: Seq<[usize; 3]>, t: (int, int, int)) -> bool {
    exists|k: int| 0 <= k < placed.len() && cell(#[trigger] placed[k]) == t
}

/// Whether the block in cell `c` is boxed in along `axis`: not on the grid's
/// boundary there, and both its neighbours along it occupied.
pub open spec fn boxed_in(placed: Seq<[usize; 3]>, dims: [usize; 3], c: [usize; 3], axis: int) -> bool {
    &&& 0 < c[axis] && c[axis] + 1 < dims[axis]
    &&& occupied(placed, neighbour(c, axis, -1))
    &&& occupied(placed, neighbour(c, axis, 1))
}

/// Whether the block in cell `c` is hidden: each of its six face neighbours
/// is an occupied cell of the grid.
pub open spec fn hidden(placed: Seq<[usize; 3]>, dims: [usize; 3], c: [usize; 3]) -> bool {
    boxed_in(placed, dims, c, 0) && boxed_in(placed, dims, c, 1) && boxed_in(placed, dims, c, 2)
}

/// How many of the first `k` placed blocks are not hidden.
pub open spec fn surface_count(placed: Seq<[usize; 3]>, dims: [usize; 3], k: int) -> nat
    decreases k,
{
    if k <= 0 {
        0
    } else {
        surface_count(placed, dims, k - 1) + if hidden(placed, dims, placed[k - 1]) {
            0nat
        } else {
            1nat
        }
    }
}

/// Whether bit `i` of the bitset `words` is set.
pub open spec fn bit(words: Seq<u64>, i: int) -> bool {
    words[i / 64] & (1u64 << ((i % 64) as u64)) != 0
}

impl UniformBlockGrid {
    /// The grid's cell count, and every partial product of it, fit in
    /// `usize` and stay within [`MAX_UNIFORM_GRID_CELLS`].
    pub open spec fn well_formed(&self) -> bool {
        &&& self.dims[0] * self.dims[1] <= usize::MAX
        &&& cells_of(self.dims) <= MAX_UNIFORM_GRID_CELLS
    }

    /// The grid of shape `dims`, or `None` when its cell count overflows or
    /// is too large for the occupancy bitset to be worth it.
    pub fn from_dims(dims: [usize; 3]) -> (r: Option<UniformBlockGrid>)
        ensures
            r is Some <==> (dims[0] * dims[1] <= usize::MAX && cells_of(dims) <= MAX_UNIFORM_GRID_CELLS),
            r matches Some(grid) ==> grid.dims == dims && grid.well_formed(),
    {
        let xy = match dims[0].checked_mul(dims[1]) {
            Some(xy) => xy,
            None => return None,
        };
        let cells = match xy.checked_mul(dims[2]) {
            Some(cells) => cells,
            None => return None,
        };
        if cells <= MAX_UNIFORM_GRID_CELLS {
            Some(UniformBlockGrid { dims })
        } else {
            None
        }
    }

    pub fn cell_count(&self) -> (n: usize)
        requires
            self.well_formed(),
        ensures
            n == cells_of(self.dims),
    {
        self.dims[0] * self.dims[1] * self.dims[2]
    }

    /// The grid cell with the given rounded cell numbers, or `None` if it
    /// lies outside the grid.
    pub fn cell_coords(&self, rounded: [usize; 3]) -> (r: Option<[usize; 3]>)
        ensures
            r == (if in_grid(self.dims, rounded) {
                Some(rounded)
            } else {
                None
            }),
    {
        let mut axis: usize = 0;
        while axis < 3
            invariant
                axis <= 3,
                forall|a: int| 0 <= a < axis ==> rounded[a] < self.dims[a],
            decreases 3 - axis,
        {
            if rounded[axis] >= self.dims[axis] {
                return None;
            }
            axis = axis + 1;
        }
        Some(rounded)
    }

    pub fn linear_index(&self, coords: [usize; 3]) -> (i: usize)
        requires
            self.well_formed(),
            in_grid(self.dims, coords),
        ensures
            i == grid_index(self.dims, coords),
            i < cells_of(self.dims),
    {
        proof {
            lemma_grid_index_bounds(self.dims, coords);
        }
        (coords[2] * self.dims[1] + coords[1]) * self.dims[0] + coords[0]
    }
}

impl RegularBlockBounds {
    /// The uniform grid the regular grid's cells lie on, when it is small
    /// enough for the culling bitset.
    pub fn uniform_grid(&self) -> (r: Option<UniformBlockGrid>)
        ensures
            r is Some <==> (self.dims[0] * self.dims[1] <= usize::MAX && cells_of(self.dims)
                <= MAX_UNIFORM_GRID_CELLS),
            r matches Some(grid) ==> grid.dims == self.dims && grid.well_formed(),
    {
        UniformBlockGrid::from_dims(self.dims)
    }
}

/// Whether cell `c` has a neighbour on every side inside the grid.
pub open spec fn strictly_inside(dims: [usize; 3], c: [usize; 3]) -> bool {
    &&& 0 < c[0] && c[0] + 1 < dims[0]
    &&& 0 < c[1] && c[1] + 1 < dims[1]
    &&& 0 < c[2] && c[2] + 1 < dims[2]
}

/// On a grid where every cell holds a renderable block, a block is hidden
/// exactly when its cell has a neighbour on every side: the cells the dense
/// count leaves out.
pub proof fn law_full_grid_hidden_iff_interior(placed: Seq<[usize; 3]>, dims: [usize; 3], c: [usize; 3])
    requires
        forall|t: (int, int, int)| #[trigger] inside(dims, t) ==> occupied(placed, t),
        in_grid(dims, c),
    ensures
        hidden(placed, dims, c) <==> strictly_inside(dims, c),
{
    if strictly_inside(dims, c) {
        assert forall|axis: int| 0 <= axis < 3 implies #[trigger] boxed_in(placed, dims, c, axis) by {
            assert(inside(dims, neighbour(c, axis, -1)));
            assert(inside(dims, neighbour(c, axis, 1)));
        }
        assert(boxed_in(placed, dims, c, 0));
        assert(boxed_in(placed, dims, c, 1));
        assert(boxed_in(placed, dims, c, 2));
    }
}

/// The cells from `lo` (inclusive) to `hi` (exclusive) along every axis.
pub open spec fn cell_box(lo: (int, int, int), hi: (int, int, int)) -> Set<(int, int, int)> {
    Set::new(|t: (int, int, int)| lo.0 <= t.0 < hi.0 && lo.1 <= t.1 < hi.1 && lo.2 <= t.2 < hi.2)
}

/// The cells of a rectangle at height `z`.
spec fn cell_slab(lo: (int, int, int), hi: (int, int, int), z: int) -> Set<(int, int, int)> {
    Set::new(|t: (int, int, int)| lo.0 <= t.0 < hi.0 && lo.1 <= t.1 < hi.1 && t.2 == z)
}

/// The points of a rectangle.
spec fn rect(lo: (int, int), hi: (int, int)) -> Set<(int, int)> {
    Set::new(|p: (int, int)| lo.0 <= p.0 < hi.0 && lo.1 <= p.1 < hi.1)
}

/// The points of a row at `y`.
spec fn row(lo: int, hi: int, y: int) -> Set<(int, int)> {
    Set::new(|p: (int, int)| lo <= p.0 < hi && p.1 == y)
}

proof fn lemma_row_len(lo: int, hi: int, y: int)
    requires
        lo <= hi,
    ensures
        row(lo, hi, y).finite(),
        row(lo, hi, y).len() == hi - lo,
{
    vstd::set_lib::lemma_int_range(lo, hi);
    let line = vstd::set_lib::set_int_range(lo, hi);
    let f = |x: int| (x, y);
    assert(line.map(f) =~= row(lo, hi, y)) by {
        assert forall|p: (int, int)| row(lo, hi, y).contains(p) implies line.map(f).contains(p) by {
            assert(line.contains(p.0) && f(p.0) == p);
        }
    }
    vstd::set_lib::lemma_map_size(line, row(lo, hi, y), f);
}

#[verifier::spinoff_prover]
proof fn lemma_rect_len(lo: (int, int), hi: (int, int))
    requires
        lo.0 <= hi.0,
        lo.1 <= hi.1,
    ensures
        rect(lo, hi).finite(),
        rect(lo, hi).len() == (hi.0 - lo.0) * (hi.1 - lo.1),
    decreases hi.1 - lo.1,
{
    if hi.1 == lo.1 {
        assert(rect(lo, hi) =~= Set::empty());
    } else {
        let below = (hi.0, hi.1 - 1);
        lemma_rect_len(lo, below);
        lemma_row_len(lo.0, hi.0, hi.1 - 1);
        assert(rect(lo, hi) =~= rect(lo, below) + row(lo.0, hi.0, hi.1 - 1));
        assert(rect(lo, below).disjoint(row(lo.0, hi.0, hi.1 - 1)));
        vstd::set_lib::lemma_set_disjoint_lens(rect(lo, below), row(lo.0, hi.0, hi.1 - 1));
        assert((hi.0 - lo.0) * (hi.1 - 1 - lo.1) + (hi.0 - lo.0) == (hi.0 - lo.0) * (hi.1 - lo.1)) by (nonlinear_arith);
    }
}

proof fn lemma_slab_len(lo: (int, int, int), hi: (int, int, int), z: int)
    requires
        lo.0 <= hi.0,
        lo.1 <= hi.1,
    ensures
        cell_slab(lo, hi, z).finite(),
        cell_slab(lo, hi, z).len() == (hi.0 - lo.0) * (hi.1 - lo.1),
{
    let r = rect((lo.0, lo.1), (hi.0, hi.1));
    lemma_rect_len((lo.0, lo.1), (hi.0, hi.1));
    let f = |p: (int, int)| (p.0, p.1, z);
    assert(r.map(f) =~= cell_slab(lo, hi, z)) by {
        assert forall|t: (int, int, int)| cell_slab(lo, hi, z).contains(t) implies r.map(f).contains(t) by {
            assert(r.contains((t.0, t.1)) && f((t.0, t.1)) == t);
        }
    }
    vstd::set_lib::lemma_map_size(r, cell_slab(lo, hi, z), f);
}

/// A box of cells holds the product of its extents.
pub proof fn lemma_cell_box_len(lo: (int, int, int), hi: (int, int, int))
    requires
        lo.0 <= hi.0,
        lo.1 <= hi.1,
        lo.2 <= hi.2,
    ensures
        cell_box(lo, hi).finite(),
        cell_box(lo, hi).len() == (hi.0 - lo.0) * (hi.1 - lo.1) * (hi.2 - lo.2),
    decreases hi.2 - lo.2,
{
    if hi.2 == lo.2 {
        assert(cell_box(lo, hi) =~= Set::empty());
        assert((hi.0 - lo.0) * (hi.1 - lo.1) * (hi.2 - lo.2) == 0) by (nonlinear_arith)
            requires
                hi.2 == lo.2,
        ;
    } else {
        let below = (hi.0, hi.1, hi.2 - 1);
        lemma_cell_box_len(lo, below);
        lemma_slab_len(lo, hi, hi.2 - 1);
        assert(cell_box(lo, hi) =~= cell_box(lo, below) + cell_slab(lo, hi, hi.2 - 1));
        assert(cell_box(lo, below).disjoint(cell_slab(lo, hi, hi.2 - 1)));
        vstd::set_lib::lemma_set_disjoint_lens(cell_box(lo, below), cell_slab(lo, hi, hi.2 - 1));
        let (a, b, c) = (hi.0 - lo.0, hi.1 - lo.1, hi.2 - lo.2);
        assert(a * b * (c - 1) + a * b == a * b * c) by (nonlinear_arith);
    }
}

/// Whether the cell at `t` has a neighbour on every side inside the grid.
pub open spec fn inner_cell(dims: [usize; 3], t: (int, int, int)) -> bool {
    &&& 0 < t.0 && t.0 + 1 < dims[0]
    &&& 0 < t.1 && t.1 + 1 < dims[1]
    &&& 0 < t.2 && t.2 + 1 < dims[2]
}

/// How many of the first `k` placed blocks sit in cells with a neighbour on
/// every side.
pub open spec fn inner_count(placed: Seq<[usize; 3]>, dims: [usize; 3], k: int) -> nat
    decreases k,
{
    if k <= 0 {
        0
    } else {
        inner_count(placed, dims, k - 1) + if inner_cell(dims, cell(placed[k - 1])) {
            1nat
        } else {
            0nat
        }
    }
}

/// With the cells of the first `k` blocks all different, the count of those
/// with a neighbour on every side is the size of the set of such cells
/// among them.
proof fn lemma_inner_count_is_set_size(placed: Seq<[usize; 3]>, dims: [usize; 3], k: int)
    requires
        0 <= k <= placed.len(),
        forall|i: int, j: int| 0 <= i < j < placed.len() ==> cell(#[trigger] placed[i]) != cell(#[trigger] placed[j]),
    ensures
        placed_cells_upto(placed, k).finite(),
        inner_count(placed, dims, k) == placed_cells_upto(placed, k).filter(|t: (int, int, int)| inner_cell(dims, t)).len(),
    decreases k,
{
    let inner = |t: (int, int, int)| inner_cell(dims, t);
    if k == 0 {
        assert(placed_cells_upto(placed, 0) =~= Set::empty());
        assert(placed_cells_upto(placed, 0).filter(inner) =~= Set::empty());
    } else {
        lemma_inner_count_is_set_size(placed, dims, k - 1);
        let before = placed_cells_upto(placed, k - 1);
        let t = cell(placed[k - 1]);
        assert(placed_cells_upto(placed, k) =~= before.insert(t));
        assert(!before.contains(t)) by {
            if before.contains(t) {
                let j = choose|j: int| 0 <= j < k - 1 && cell(#[trigger] placed[j]) == t;
                assert(cell(placed[j]) != cell(placed[k - 1]));
            }
        }
        if inner(t) {
            assert(before.insert(t).filter(inner) =~= before.filter(inner).insert(t));
            assert(!before.filter(inner).contains(t));
        } else {
            assert(before.insert(t).filter(inner) =~= before.filter(inner));
        }
    }
}

/// The cells of the first `k` placed blocks.
pub open spec fn placed_cells_upto(placed: Seq<[usize; 3]>, k: int) -> Set<(int, int, int)> {
    Set::new(|t: (int, int, int)| exists|j: int| 0 <= j < k && cell(#[trigger] placed[j]) == t)
}

/// When every block renders and each cell of the grid holds exactly one of
/// them, counting block by block what the cull leaves gives what the dense
/// shortcut gives: every cell but those with a neighbour on every side.
pub proof fn law_full_grid_count(placed: Seq<[usize; 3]>, dims: [usize; 3])
    requires
        forall|k: int| 0 <= k < placed.len() ==> in_grid(dims, #[trigger] placed[k]),
        forall|i: int, j: int| 0 <= i < j < placed.len() ==> cell(#[trigger] placed[i]) != cell(#[trigger] placed[j]),
        forall|t: (int, int, int)| #[trigger] inside(dims, t) ==> occupied(placed, t),
    ensures
        placed.len() == cells_of(dims),
        surface_count(placed, dims, placed.len() as int) == cells_of(dims) - interior_cells(dims),
{
    let n = placed.len() as int;
    let inner = |t: (int, int, int)| inner_cell(dims, t);
    let grid = cell_box((0, 0, 0), (dims[0] as int, dims[1] as int, dims[2] as int));
    let all = placed_cells_upto(placed, n);
    assert(all =~= grid) by {
        assert forall|t: (int, int, int)| grid.contains(t) implies all.contains(t) by {
            assert(inside(dims, t));
            let k = choose|k: int| 0 <= k < placed.len() && cell(#[trigger] placed[k]) == t;
        }
        assert forall|t: (int, int, int)| all.contains(t) implies grid.contains(t) by {
            let j = choose|j: int| 0 <= j < n && cell(#[trigger] placed[j]) == t;
            assert(in_grid(dims, placed[j]));
        }
    }
    lemma_cell_box_len((0, 0, 0), (dims[0] as int, dims[1] as int, dims[2] as int));
    lemma_distinct_len(placed);
    let hi = (
        if dims[0] >= 2 { dims[0] - 1 } else { 1int },
        if dims[1] >= 2 { dims[1] - 1 } else { 1int },
        if dims[2] >= 2 { dims[2] - 1 } else { 1int },
    );
    assert(grid.filter(inner) =~= cell_box((1, 1, 1), hi));
    lemma_cell_box_len((1, 1, 1), hi);
    lemma_inner_count_is_set_size(placed, dims, n);
    lemma_surface_plus_inner(placed, dims, n);
}

/// `k` blocks in different cells occupy `k` cells.
proof fn lemma_distinct_len(placed: Seq<[usize; 3]>)
    requires
        forall|i: int, j: int| 0 <= i < j < placed.len() ==> cell(#[trigger] placed[i]) != cell(#[trigger] placed[j]),
    ensures
        placed_cells_upto(placed, placed.len() as int).finite(),
        placed_cells_upto(placed, placed.len() as int).len() == placed.len(),
{
    let cells = placed.map_values(|c: [usize; 3]| cell(c));
    assert(cells.no_duplicates()) by {
        assert forall|i: int, j: int| 0 <= i < cells.len() && 0 <= j < cells.len() && i != j implies cells[i]
            != cells[j] by {
            if i < j {
                assert(cell(placed[i]) != cell(placed[j]));
            } else {
                assert(cell(placed[j]) != cell(placed[i]));
            }
        }
    }
    cells.unique_seq_to_set();
    assert(cells.to_set() =~= placed_cells_upto(placed, placed.len() as int)) by {
        assert forall|t: (int, int, int)| placed_cells_upto(placed, placed.len() as int).contains(t) implies cells.to_set().contains(t) by {
            let j = choose|j: int| 0 <= j < placed.len() && cell(#[trigger] placed[j]) == t;
            assert(cells[j] == t);
        }
        assert forall|t: (int, int, int)| cells.to_set().contains(t) implies placed_cells_upto(placed, placed.len() as int).contains(t) by {
            assert(cells.contains(t));
            let j = choose|j: int| 0 <= j < cells.len() && cells[j] == t;
            assert(cell(placed[j]) == t);
        }
    }
    vstd::seq_lib::seq_to_set_is_finite(cells);
}

/// On a fully occupied grid, what the cull leaves and what it hides add up
/// to the blocks counted.
proof fn lemma_surface_plus_inner(placed: Seq<[usize; 3]>, dims: [usize; 3], k: int)
    requires
        0 <= k <= placed.len(),
        forall|j: int| 0 <= j < placed.len() ==> in_grid(dims, #[trigger] placed[j]),
        forall|t: (int, int, int)| #[trigger] inside(dims, t) ==> occupied(placed, t),
    ensures
        surface_count(placed, dims, k) + inner_count(placed, dims, k) == k,
    decreases k,
{
    if k > 0 {
        lemma_surface_plus_inner(placed, dims, k - 1);
        law_full_grid_hidden_iff_interior(placed, dims, placed[k - 1]);
    }
}

/// Whether some block of `order` has its cell, as given in `cells`, at
/// (`x`, `y`, `z`).
pub open spec fn block_in_cell(cells: Seq<Option<[usize; 3]>>, order: Seq<usize>, x: int, y: int, z: int) -> bool {
    exists|k: int|
        0 <= k < order.len() && match #[trigger] cells[order[k] as int] {
            Some(c) => c[0] == x && c[1] == y && c[2] == z,
            None => false,
        }
}

/// Whether all six cells that share a face with `c` hold a block of `order`:
/// the two along x, the two along y and the two along z.
pub open spec fn enclosed(cells: Seq<Option<[usize; 3]>>, order: Seq<usize>, c: [usize; 3]) -> bool {
    &&& block_in_cell(cells, order, c[0] - 1, c[1] as int, c[2] as int)
    &&& block_in_cell(cells, order, c[0] + 1, c[1] as int, c[2] as int)
    &&& block_in_cell(cells, order, c[0] as int, c[1] - 1, c[2] as int)
    &&& block_in_cell(cells, order, c[0] as int, c[1] + 1, c[2] as int)
    &&& block_in_cell(cells, order, c[0] as int, c[1] as int, c[2] - 1)
    &&& block_in_cell(cells, order, c[0] as int, c[1] as int, c[2] + 1)
}

/// Whether block `b` of `order` is exposed: not every cell sharing a face
/// with its own holds a block of `order`.
pub open spec fn exposed(cells: Seq<Option<[usize; 3]>>, order: Seq<usize>) -> spec_fn(usize) -> bool {
    |b: usize| !enclosed(cells, order, cells[b as int].unwrap())
}

/// Whether every block of `order` exists and has its cell inside the grid.
pub open spec fn on_grid(cells: Seq<Option<[usize; 3]>>, dims: [usize; 3], order: Seq<usize>) -> bool {
    forall|k: int|
        0 <= k < order.len() ==> order[k] < cells.len() && match #[trigger] cells[order[k] as int] {
            Some(c) => c[0] < dims[0] && c[1] < dims[1] && c[2] < dims[2],
            None => false,
        }
}

proof fn lemma_occupied_is_block_in_cell(
    cells: Seq<Option<[usize; 3]>>,
    dims: [usize; 3],
    order: Seq<usize>,
    t: (int, int, int),
)
    requires
        on_grid(cells, dims, order),
    ensures
        occupied(placed(cells, dims, order), t) <==> block_in_cell(cells, order, t.0, t.1, t.2),
{
    let p = placed(cells, dims, order);
    if occupied(p, t) {
        let k = choose|k: int| 0 <= k < p.len() && cell(#[trigger] p[k]) == t;
        assert(cells[order[k] as int] is Some);
        assert(p[k] == cells[order[k] as int].unwrap());
    }
    if block_in_cell(cells, order, t.0, t.1, t.2) {
        let k = choose|k: int|
            0 <= k < order.len() && match #[trigger] cells[order[k] as int] {
                Some(c) => c[0] == t.0 && c[1] == t.1 && c[2] == t.2,
                None => false,
            };
        assert(cells[order[k] as int] is Some);
        assert(p[k] == cells[order[k] as int].unwrap());
        assert(cell(p[k]) == t);
    }
}

proof fn lemma_hidden_is_enclosed(cells: Seq<Option<[usize; 3]>>, dims: [usize; 3], order: Seq<usize>, c: [usize; 3])
    requires
        on_grid(cells, dims, order),
    ensures
        hidden(placed(cells, dims, order), dims, c) <==> enclosed(cells, order, c),
{
    let p = placed(cells, dims, order);
    assert forall|axis: int, delta: int| 0 <= axis < 3 && (delta == -1 || delta == 1) implies (occupied(
        p,
        #[trigger] neighbour(c, axis, delta),
    ) ==> 0 <= neighbour(c, axis, delta).0 < dims[0] && 0 <= neighbour(c, axis, delta).1 < dims[1] && 0
        <= neighbour(c, axis, delta).2 < dims[2]) by {
        let t = neighbour(c, axis, delta);
        if occupied(p, t) {
            let k = choose|k: int| 0 <= k < p.len() && cell(#[trigger] p[k]) == t;
            assert(cells[order[k] as int] is Some);
            assert(p[k] == cells[order[k] as int].unwrap());
        }
    }
    lemma_occupied_is_block_in_cell(cells, dims, order, neighbour(c, 0, -1));
    lemma_occupied_is_block_in_cell(cells, dims, order, neighbour(c, 0, 1));
    lemma_occupied_is_block_in_cell(cells, dims, order, neighbour(c, 1, -1));
    lemma_occupied_is_block_in_cell(cells, dims, order, neighbour(c, 1, 1));
    lemma_occupied_is_block_in_cell(cells, dims, order, neighbour(c, 2, -1));
    lemma_occupied_is_block_in_cell(cells, dims, order, neighbour(c, 2, 1));
}

proof fn lemma_surface_count_filter(cells: Seq<Option<[usize; 3]>>, dims: [usize; 3], order: Seq<usize>, k: int)
    requires
        on_grid(cells, dims, order),
        0 <= k <= order.len(),
    ensures
        surface_count(placed(cells, dims, order), dims, k) == order.take(k).filter(exposed(cells, order)).len(),
    decreases k,
{
    let pred = exposed(cells, order);
    if k == 0 {
        assert(order.take(0) =~= Seq::<usize>::empty());
    } else {
        lemma_surface_count_filter(cells, dims, order, k - 1);
        assert(order.take(k).drop_last() =~= order.take(k - 1));
        assert(order.take(k).last() == order[k - 1]);
        let p = placed(cells, dims, order);
        assert(cells[order[k - 1] as int] is Some);
        assert(p[k - 1] == cells[order[k - 1] as int].unwrap());
        lemma_hidden_is_enclosed(cells, dims, order, p[k - 1]);
        let t = order.take(k);
        reveal(Seq::filter);
        assert(t.filter(pred) == (if pred(t.last()) {
            t.drop_last().filter(pred).push(t.last())
        } else {
            t.drop_last().filter(pred)
        }));
    }
}

/// What the cull leaves, stated on the blocks and their cells alone: the
/// count is `None` exactly when some renderable block has no cell on the
/// grid, and otherwise it is the number of renderable blocks that do not
/// have a renderable block in every one of the six cells sharing a face
/// with their own, along z as along x and y.
pub proof fn law_surface_count_counts_exposed_blocks(
    cells: Seq<Option<[usize; 3]>>,
    dims: [usize; 3],
    order: Seq<usize>,
)
    ensures
        all_located(cells, dims, order) <==> on_grid(cells, dims, order),
        on_grid(cells, dims, order) ==> surface_count(placed(cells, dims, order), dims, order.len() as int)
            == order.filter(exposed(cells, order)).len(),
{
    if all_located(cells, dims, order) {
        assert forall|k: int| 0 <= k < order.len() implies order[k] < cells.len() && match #[trigger] cells[
            order[k] as int] {
            Some(c) => c[0] < dims[0] && c[1] < dims[1] && c[2] < dims[2],
            None => false,
        } by {
            assert(located(cells, dims, order[k] as int) is Some);
        }
    }
    if on_grid(cells, dims, order) {
        assert forall|k: int| 0 <= k < order.len() implies (#[trigger] located(cells, dims, order[k] as int)) is Some by {
            assert(order[k] < cells.len());
            assert(cells[order[k] as int] is Some);
        }
    }
    if on_grid(cells, dims, order) {
        lemma_surface_count_filter(cells, dims, order, order.len() as int);
        assert(order.take(order.len() as int) =~= order);
    }
}

/// Count the cube instances left after the opaque path's whole-interior-block
/// cull. A dense grid, every cell rendering, is counted at once; otherwise
/// each renderable block's cell is marked in a bitset, and a block counts
/// unless all six face neighbours are marked. `None` means some renderable
/// block has no cell on the grid.
///
/// `cells[b]` is the rounded cell numbers of block `b`'s lower corner, or
/// `None` where it could not be placed.
pub fn opaque_surface_block_count(
    cells: &[Option<[usize; 3]>],
    renderable: &RenderableBlockIndices,
    grid: &UniformBlockGrid,
) -> (r: Option<usize>)
    requires
        grid.well_formed(),
    ensures
        renderable is All && renderable@.len() == cells_of(grid.dims) ==> r == Some(
            (cells_of(grid.dims) - interior_cells(grid.dims)) as usize,
        ),
        !(renderable is All && renderable@.len() == cells_of(grid.dims)) ==> r == (if all_located(
            cells@,
            grid.dims,
            renderable@,
        ) {
            Some(surface_count(placed(cells@, grid.dims, renderable@), grid.dims, renderable@.len() as int) as usize)
        } else {
            None
        }),
        !(renderable is All && renderable@.len() == cells_of(grid.dims)) ==> {
            &&& r is Some <==> on_grid(cells@, grid.dims, renderable@)
            &&& r matches Some(n) ==> n == renderable@.filter(exposed(cells@, renderable@)).len()
        },
{
    proof {
        law_surface_count_counts_exposed_blocks(cells@, grid.dims, renderable@);
    }
    let dims = grid.dims;
    let grid_cells = grid.cell_count();
    if renderable.is_all() && renderable.len() == grid_cells {
        proof {
            lemma_interior_fits(dims);
        }
        let interior = inner(dims[0]) * inner(dims[1]) * inner(dims[2]);
        return Some(grid_cells - interior);
    }
    let ghost order = renderable@;
    let count = renderable.len();
    let words = grid_cells / 64 + if grid_cells % 64 == 0 {
        0
    } else {
        1
    };
    proof {
        assert(words * 64 >= grid_cells);
    }
    let mut occupied_bits: Vec<u64> = Vec::new();
    while occupied_bits.len() < words
        invariant
            occupied_bits.len() <= words,
            forall|w: int| 0 <= w < occupied_bits.len() ==> #[trigger] occupied_bits@[w] == 0,
        decreases words - occupied_bits.len(),
    {
        occupied_bits.push(0);
    }
    proof {
        assert forall|i: int| 0 <= i < grid_cells implies !bit(occupied_bits@, i) by {
            lemma_word_zero((i % 64) as u64);
        }
    }
    let mut k: usize = 0;
    while k < count
        invariant
            grid.well_formed(),
            dims == grid.dims,
            grid_cells == cells_of(dims),
            count == order.len(),
            order == renderable@,
            !(renderable is All && renderable@.len() == cells_of(dims)),
            k <= count,
            occupied_bits.len() == words,
            words * 64 >= grid_cells,
            forall|j: int| 0 <= j < k ==> (#[trigger] located(cells@, dims, order[j] as int)) is Some,
            forall|i: int|
                0 <= i < grid_cells ==> (bit(occupied_bits@, i) <==> exists|j: int|
                    0 <= j < k && grid_index(dims, #[trigger] located(cells@, dims, order[j] as int).unwrap()) == i),
        decreases count - k,
    {
        let block = renderable.get(k).unwrap();
        let coords = match locate(cells, grid, block) {
            Some(coords) => coords,
            None => {
                proof {
                    assert(!all_located(cells@, dims, order)) by {
                        assert(located(cells@, dims, order[k as int] as int) is None);
                    }
                }
                return None;
            },
        };
        let index = grid.linear_index(coords);
        let ghost before = occupied_bits@;
        proof {
            assert(index / 64 < words);
        }
        let word = occupied_bits[index / 64] | (1u64 << ((index % 64) as u64));
        occupied_bits.set(index / 64, word);
        proof {
            assert forall|i: int| 0 <= i < grid_cells implies (bit(occupied_bits@, i) <==> exists|j: int|
                0 <= j < k + 1 && grid_index(dims, #[trigger] located(cells@, dims, order[j] as int).unwrap()) == i) by {
                lemma_bit_after_set(before, index as int, i, words as int);
                if i == index {
                    assert(grid_index(dims, located(cells@, dims, order[k as int] as int).unwrap()) == i);
                }
                if exists|j: int|
                    0 <= j < k + 1 && grid_index(dims, #[trigger] located(cells@, dims, order[j] as int).unwrap()) == i {
                    let j = choose|j: int|
                        0 <= j < k + 1 && grid_index(dims, #[trigger] located(cells@, dims, order[j] as int).unwrap()) == i;
                    if j < k {
                        assert(exists|j2: int|
                            0 <= j2 < k && grid_index(dims, #[trigger] located(cells@, dims, order[j2] as int).unwrap()) == i);
                    }
                }
            }
        }
        k = k + 1;
    }
    let ghost placed_cells = placed(cells@, dims, order);
    proof {
        assert(all_located(cells@, dims, order));
        lemma_bits_mean_occupied(occupied_bits@, cells@, dims, order);
    }
    proof {
        lemma_interior_fits(dims);
    }
    let strides: [usize; 3] = [1, dims[0], dims[0] * dims[1]];
    let mut surface_blocks: usize = 0;
    let mut k: usize = 0;
    while k < count
        invariant
            grid.well_formed(),
            dims == grid.dims,
            grid_cells == cells_of(dims),
            count == order.len(),
            order == renderable@,
            !(renderable is All && renderable@.len() == cells_of(dims)),
            k <= count,
            occupied_bits.len() == words,
            words * 64 >= grid_cells,
            strides == [1usize, dims[0], (dims[0] * dims[1]) as usize],
            all_located(cells@, dims, order),
            placed_cells == placed(cells@, dims, order),
            forall|t: (int, int, int)|
                #[trigger] inside(dims, t) ==> (bit(occupied_bits@, index_of(dims, t)) <==> occupied(placed_cells, t)),
            surface_blocks == surface_count(placed_cells, dims, k as int),
            surface_blocks <= k,
        decreases count - k,
    {
        let block = renderable.get(k).unwrap();
        let coords = match locate(cells, grid, block) {
            Some(coords) => coords,
            None => {
                proof {
                    assert(located(cells@, dims, order[k as int] as int) is Some);
                }
                return None;
            },
        };
        proof {
            assert(placed_cells[k as int] == coords);
        }
        let index = grid.linear_index(coords);
        let mut fully_occluded = true;
        let mut axis: usize = 0;
        while axis < 3 && fully_occluded
            invariant
                grid.well_formed(),
                dims == grid.dims,
                in_grid(dims, coords),
                index == grid_index(dims, coords),
                occupied_bits.len() * 64 >= cells_of(dims),
                strides == [1usize, dims[0], (dims[0] * dims[1]) as usize],
                forall|t: (int, int, int)|
                    #[trigger] inside(dims, t) ==> (bit(occupied_bits@, index_of(dims, t)) <==> occupied(
                        placed_cells,
                        t,
                    )),
                axis <= 3,
                fully_occluded == forall|a: int| 0 <= a < axis ==> #[trigger] boxed_in(placed_cells, dims, coords, a),
            decreases 3 - axis,
        {
            let boxed = occluded_along(&occupied_bits, grid, coords, index, axis, strides[axis]);
            proof {
                if 0 < coords[axis as int] && coords[axis as int] + 1 < dims[axis as int] {
                    lemma_neighbours_inside(dims, coords, axis as int);
                }
                assert(boxed == boxed_in(placed_cells, dims, coords, axis as int));
            }
            if !boxed {
                fully_occluded = false;
            }
            axis = axis + 1;
        }
        proof {
            if fully_occluded {
                assert(boxed_in(placed_cells, dims, coords, 0));
                assert(boxed_in(placed_cells, dims, coords, 1));
                assert(boxed_in(placed_cells, dims, coords, 2));
            } else {
                let a = choose|a: int| 0 <= a < axis && !#[trigger] boxed_in(placed_cells, dims, coords, a);
                assert(!hidden(placed_cells, dims, coords));
            }
        }
        if !fully_occluded {
            surface_blocks = surface_blocks + 1;
        }
        k = k + 1;
    }
    Some(surface_blocks)
}

/// `d - 2`, or 0 below two.
fn inner(d: usize) -> (r: usize)
    ensures
        r == inner_extent(d),
{
    if d >= 2 {
        d - 2
    } else {
        0
    }
}

/// The grid cell of block `b`, as [`located`] describes it.
fn locate(cells: &[Option<[usize; 3]>], grid: &UniformBlockGrid, b: usize) -> (r: Option<[usize; 3]>)
    ensures
        r == located(cells@, grid.dims, b as int),
{
    if b < cells.len() {
        match cells[b] {
            Some(rounded) => grid.cell_coords(rounded),
            None => None,
        }
    } else {
        None
    }
}

/// Whether the block in cell `coords` (at `index`) is boxed in along `axis`:
/// not on the grid's boundary there, and both neighbours along it marked.
fn occluded_along(
    occupied_bits: &Vec<u64>,
    grid: &UniformBlockGrid,
    coords: [usize; 3],
    index: usize,
    axis: usize,
    stride: usize,
) -> (r: bool)
    requires
        grid.well_formed(),
        in_grid(grid.dims, coords),
        index == grid_index(grid.dims, coords),
        axis < 3,
        stride == stride_of(grid.dims, axis as int),
        occupied_bits.len() * 64 >= cells_of(grid.dims),
    ensures
        r == (0 < coords[axis as int] && coords[axis as int] + 1 < grid.dims[axis as int] && bit(
            occupied_bits@,
            index_of(grid.dims, neighbour(coords, axis as int, -1)),
        ) && bit(occupied_bits@, index_of(grid.dims, neighbour(coords, axis as int, 1)))),
{
    if coords[axis] == 0 || coords[axis] + 1 >= grid.dims[axis] {
        return false;
    }
    proof {
        lemma_neighbours_inside(grid.dims, coords, axis as int);
        lemma_index_bounds_of(grid.dims, neighbour(coords, axis as int, -1));
        lemma_index_bounds_of(grid.dims, neighbour(coords, axis as int, 1));
    }
    let below = index - stride;
    let above = index + stride;
    test_bit(occupied_bits, below) && test_bit(occupied_bits, above)
}

/// Whether bit `i` of `words` is set.
fn test_bit(bits: &Vec<u64>, i: usize) -> (set: bool)
    requires
        i < bits.len() * 64,
    ensures
        set == bit(bits@, i as int),
{
    let word = bits[i / 64];
    let mask = 1u64 << ((i % 64) as u64);
    (word & mask) != 0
}

/// A cell inside the grid has an index below the cell count, and so does
/// every partial sum on the way to it.
proof fn lemma_index_bounds_of(dims: [usize; 3], t: (int, int, int))
    requires
        inside(dims, t),
    ensures
        0 <= t.2 * dims[1] <= t.2 * dims[1] + t.1 < dims[2] * dims[1],
        dims[2] * dims[1] <= cells_of(dims),
        0 <= (t.2 * dims[1] + t.1) * dims[0] <= index_of(dims, t) < cells_of(dims),
{
    let (x, y, z) = t;
    let (d0, d1, d2) = (dims[0] as int, dims[1] as int, dims[2] as int);
    assert(d2 * d1 <= d0 * d1 * d2) by (nonlinear_arith)
        requires
            d0 >= 1,
            d1 >= 0,
            d2 >= 0,
    ;
    assert(0 <= z * d1 <= z * d1 + y < d2 * d1) by (nonlinear_arith)
        requires
            0 <= y < d1,
            0 <= z < d2,
    ;
    let q = z * d1 + y;
    assert(0 <= q * d0 <= q * d0 + x < d0 * d1 * d2) by (nonlinear_arith)
        requires
            0 <= q < d2 * d1,
            0 <= x < d0,
    ;
}

proof fn lemma_grid_index_bounds(dims: [usize; 3], c: [usize; 3])
    requires
        in_grid(dims, c),
    ensures
        c[2] * dims[1] <= c[2] * dims[1] + c[1] < dims[2] * dims[1],
        dims[2] * dims[1] <= cells_of(dims),
        (c[2] * dims[1] + c[1]) * dims[0] <= grid_index(dims, c) < cells_of(dims),
{
    lemma_index_bounds_of(dims, cell(c));
}

/// Two cells inside the grid with the same index are the same cell.
proof fn lemma_index_injective(dims: [usize; 3], t: (int, int, int), u: (int, int, int))
    requires
        inside(dims, t),
        inside(dims, u),
        index_of(dims, t) == index_of(dims, u),
    ensures
        t == u,
{
    let (d0, d1) = (dims[0] as int, dims[1] as int);
    let i = index_of(dims, t);
    vstd::arithmetic::div_mod::lemma_fundamental_div_mod_converse(i, d0, t.2 * d1 + t.1, t.0);
    vstd::arithmetic::div_mod::lemma_fundamental_div_mod_converse(i, d0, u.2 * d1 + u.1, u.0);
    let q = t.2 * d1 + t.1;
    vstd::arithmetic::div_mod::lemma_fundamental_div_mod_converse(q, d1, t.2, t.1);
    vstd::arithmetic::div_mod::lemma_fundamental_div_mod_converse(q, d1, u.2, u.1);
}

/// With `c` away from the boundary along `axis`, both its neighbours there
/// are inside the grid, one stride either side of it.
proof fn lemma_neighbours_inside(dims: [usize; 3], c: [usize; 3], axis: int)
    requires
        in_grid(dims, c),
        0 <= axis < 3,
        0 < c[axis],
        c[axis] + 1 < dims[axis],
    ensures
        inside(dims, neighbour(c, axis, -1)),
        inside(dims, neighbour(c, axis, 1)),
        index_of(dims, neighbour(c, axis, -1)) == grid_index(dims, c) - stride_of(dims, axis),
        index_of(dims, neighbour(c, axis, 1)) == grid_index(dims, c) + stride_of(dims, axis),
{
    let (x, y, z) = (c[0] as int, c[1] as int, c[2] as int);
    let (d0, d1) = (dims[0] as int, dims[1] as int);
    if axis == 1 {
        assert((z * d1 + (y - 1)) * d0 + x == (z * d1 + y) * d0 + x - d0) by (nonlinear_arith);
        assert((z * d1 + (y + 1)) * d0 + x == (z * d1 + y) * d0 + x + d0) by (nonlinear_arith);
    } else if axis == 2 {
        assert(((z - 1) * d1 + y) * d0 + x == (z * d1 + y) * d0 + x - d0 * d1) by (nonlinear_arith);
        assert(((z + 1) * d1 + y) * d0 + x == (z * d1 + y) * d0 + x + d0 * d1) by (nonlinear_arith);
    }
}

/// A product of extents no larger than the dimensions is no larger than the
/// cell count, and so is its first partial product.
proof fn lemma_interior_fits(dims: [usize; 3])
    ensures
        0 <= inner_extent(dims[0]) * inner_extent(dims[1]) <= dims[0] * dims[1],
        0 <= interior_cells(dims) <= cells_of(dims),
{
    let (a, b, c) = (inner_extent(dims[0]), inner_extent(dims[1]), inner_extent(dims[2]));
    let (d0, d1, d2) = (dims[0] as int, dims[1] as int, dims[2] as int);
    assert(0 <= a * b <= d0 * d1) by (nonlinear_arith)
        requires
            0 <= a <= d0,
            0 <= b <= d1,
    ;
    assert(0 <= a * b * c <= d0 * d1 * d2) by (nonlinear_arith)
        requires
            0 <= a * b <= d0 * d1,
            0 <= c <= d2,
            0 <= a,
            0 <= b,
    ;
}

/// Setting one bit of a word leaves the other bits as they were.
proof fn lemma_word_set(w: u64, a: u64, b: u64)
    requires
        a < 64,
        b < 64,
    ensures
        ((w | (1u64 << a)) & (1u64 << b) != 0) == ((w & (1u64 << b) != 0) || a == b),
{
    assert(((w | (1u64 << a)) & (1u64 << b) != 0) == ((w & (1u64 << b) != 0) || a == b)) by (bit_vector)
        requires
            a < 64,
            b < 64,
    ;
}

proof fn lemma_word_zero(b: u64)
    requires
        b < 64,
    ensures
        (0u64 & (1u64 << b)) == 0,
{
    assert((0u64 & (1u64 << b)) == 0) by (bit_vector);
}

/// After setting bit `index`, bit `i` is set exactly when it was before or
/// it is `index`.
proof fn lemma_bit_after_set(before: Seq<u64>, index: int, i: int, words: int)
    requires
        before.len() == words,
        0 <= index,
        0 <= i,
        index / 64 < words,
        i / 64 < words,
    ensures
        bit(before.update(index / 64, before[index / 64] | (1u64 << ((index % 64) as u64))), i) == (bit(
            before,
            i,
        ) || i == index),
{
    let after = before.update(index / 64, before[index / 64] | (1u64 << ((index % 64) as u64)));
    if i / 64 == index / 64 {
        lemma_word_set(before[index / 64], (index % 64) as u64, (i % 64) as u64);
        assert((index % 64 == i % 64) <==> (i == index));
    } else {
        assert(after[i / 64] == before[i / 64]);
    }
}

/// Once every renderable block's cell index is marked, a cell inside the grid
/// is marked exactly when some block sits in it.
proof fn lemma_bits_mean_occupied(
    bits: Seq<u64>,
    cells: Seq<Option<[usize; 3]>>,
    dims: [usize; 3],
    order: Seq<usize>,
)
    requires
        all_located(cells, dims, order),
        forall|i: int|
            0 <= i < cells_of(dims) ==> (bit(bits, i) <==> exists|j: int|
                0 <= j < order.len() && grid_index(dims, #[trigger] located(cells, dims, order[j] as int).unwrap()) == i),
    ensures
        forall|t: (int, int, int)|
            #[trigger] inside(dims, t) ==> (bit(bits, index_of(dims, t)) <==> occupied(placed(cells, dims, order), t)),
{
    let p = placed(cells, dims, order);
    assert forall|t: (int, int, int)| #[trigger] inside(dims, t) implies (bit(bits, index_of(dims, t)) <==> occupied(p, t)) by {
        lemma_index_bounds_of(dims, t);
        let i = index_of(dims, t);
        if bit(bits, i) {
            let j = choose|j: int|
                0 <= j < order.len() && grid_index(dims, #[trigger] located(cells, dims, order[j] as int).unwrap()) == i;
            assert(located(cells, dims, order[j] as int) is Some);
            assert(p[j] == located(cells, dims, order[j] as int).unwrap());
            lemma_index_injective(dims, cell(p[j]), t);
        }
        if occupied(p, t) {
            let k = choose|k: int| 0 <= k < p.len() && cell(#[trigger] p[k]) == t;
            assert(p[k] == located(cells, dims, order[k] as int).unwrap());
            assert(grid_index(dims, located(cells, dims, order[k] as int).unwrap()) == i);
        }
    }
}

} // verus!
