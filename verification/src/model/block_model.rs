//! Block-model indexing: which blocks render, and how a regular grid's block
//! index maps back to grid coordinates when the file stores it in voxel
//! tiles.
use vstd::prelude::*;

use crate::text::{decimal_digits, owned, push_decimal, push_str, str_equals};



verus! {

// ---------------------------------------------------------------------------
// Renderable blocks
// ---------------------------------------------------------------------------

/// Which blocks of a model render. Most models render every block, so that
/// case is kept as a count rather than a list of every index.
#[derive(Clone, Debug)]
pub enum RenderableBlockIndices {
    All(usize),
    Explicit(Vec<usize>),
}

impl View for RenderableBlockIndices {
    type V = Seq<usize>;

    /// The block indices that render, in render order.
    open spec fn view(&self) -> Seq<usize> {
        match self {
            RenderableBlockIndices::All(len) => Seq::new(*len as nat, |i: int| i as usize),
            RenderableBlockIndices::Explicit(indices) => indices@,
        }
    }
}

impl RenderableBlockIndices {
    /// Number of renderable blocks.
    pub fn len(&self) -> (n: usize)
        ensures
            n == self@.len(),
    {
        match self {
            RenderableBlockIndices::All(len) => *len,
            RenderableBlockIndices::Explicit(indices) => indices.len(),
        }
    }

    /// The block index at `position` of the render order.
    pub fn get(&self, position: usize) -> (r: Option<usize>)
        ensures
            r == (if position < self@.len() {
                Some(self@[position as int])
            } else {
                None
            }),
    {
        match self {
            RenderableBlockIndices::All(len) => {
                if position < *len {
                    Some(position)
                } else {
                    None
                }
            },
            RenderableBlockIndices::Explicit(indices) => {
                if position < indices.len() {
                    Some(indices[position])
                } else {
                    None
                }
            },
        }
    }

    /// Every renderable block index, in render order.
    pub fn iter(&self) -> (r: Vec<usize>)
        ensures
            r@ == self@,
    {
        match self {
            RenderableBlockIndices::All(len) => {
                let mut r: Vec<usize> = Vec::new();
                let mut i: usize = 0;
                while i < *len
                    invariant
                        i <= *len,
                        r@ == Seq::new(i as nat, |k: int| k as usize),
                    decreases *len - i,
                {
                    r.push(i);
                    i = i + 1;
                    proof {
                        assert(r@ =~= Seq::new(i as nat, |k: int| k as usize));
                    }
                }
                proof {
                    assert(r@ =~= self@);
                }
                r
            },
            RenderableBlockIndices::Explicit(indices) => indices.clone(),
        }
    }

    /// Whether every block renders.
    pub fn is_all(&self) -> (r: bool)
        ensures
            r == self is All,
    {
        match self {
            RenderableBlockIndices::All(_) => true,
            RenderableBlockIndices::Explicit(_) => false,
        }
    }
}

// ---------------------------------------------------------------------------
// Variables
// ---------------------------------------------------------------------------

/// What the colouring logic reads of a block-model variable: its stored
/// physical type, its `global` and `default` fields as written in the file,
/// and, for a named (categorical) variable, the name of each code, by
/// ascending code.
#[derive(Clone, Debug)]
pub struct BlockVariable {
    pub physical_type: String,
    pub global: String,
    pub default: String,
    pub strings: Vec<(u32, String)>,
}

/// Whether a variable's physical type stores category codes with names.
pub open spec fn is_categorical_type(physical_type: Seq<char>) -> bool {
    physical_type == "namedbyte"@ || physical_type == "namedshort"@
}

/// Whether `variable` is categorical (`namedbyte` or `namedshort`).
pub fn categorical_variable(variable: &BlockVariable) -> (r: bool)
    ensures
        r == is_categorical_type(variable.physical_type@),
{
    str_equals(variable.physical_type.as_str(), "namedbyte") || str_equals(
        variable.physical_type.as_str(),
        "namedshort",
    )
}

// ---------------------------------------------------------------------------
// Regular grids
// ---------------------------------------------------------------------------

/// The integer shape of a regular block grid: `dims` cells per axis, stored
/// either in plain x-fastest order or, when `voxel_size` is given, tile by
/// tile (z slabs of whole tiles, then y strips, then x tiles, each tile in
/// x-fastest order, the last tile of each axis clipped to the grid).
#[derive(Clone, Debug)]
pub struct RegularBlockBounds {
    pub dims: [usize; 3],
    pub voxel_size: Option<[usize; 3]>,
    pub len: usize,
}

/// Message for a dimension product that does not fit in `usize`.
pub open spec fn overflow_message() -> Seq<char> {
    "regular block-grid dimensions overflow usize"@
}

/// Message for dimensions that disagree with the reported block count.
pub open spec fn count_message(implied: nat, expected: nat) -> Seq<char> {
    "regular block-grid dimensions imply "@ + decimal_digits(implied) + " blocks, metadata reports "@
        + decimal_digits(expected)
}

/// Message for a zero tile dimension.
pub open spec fn zero_voxel_message() -> Seq<char> {
    "regular block-grid voxel dimensions must be non-zero"@
}

fn count_mismatch_message(implied: usize, expected: usize) -> (m: String)
    ensures
        m@ == count_message(implied as nat, expected as nat),
{
    let mut m = owned("regular block-grid dimensions imply ");
    push_decimal(&mut m, implied as u64);
    push_str(&mut m, " blocks, metadata reports ");
    push_decimal(&mut m, expected as u64);
    m
}

pub open spec fn min_int(a: int, b: int) -> int {
    if a < b {
        a
    } else {
        b
    }
}

impl RegularBlockBounds {
    /// Non-zero dimensions, non-zero tile sizes, and `len` cells in all.
    pub open spec fn well_formed(&self) -> bool {
        &&& self.dims[0] > 0
        &&& self.dims[1] > 0
        &&& self.dims[2] > 0
        &&& self.len == self.dims[0] * self.dims[1] * self.dims[2]
        &&& match self.voxel_size {
            Some(v) => v[0] > 0 && v[1] > 0 && v[2] > 0,
            None => true,
        }
    }

    /// Blocks in one whole z slab of tiles.
    pub open spec fn slab_blocks(&self, v: [usize; 3]) -> int {
        self.dims[0] * self.dims[1] * v[2]
    }

    /// Index of the z slab holding block `index`, and the slab's depth.
    pub open spec fn slab_of(&self, v: [usize; 3], index: int) -> int {
        index / self.slab_blocks(v)
    }

    pub open spec fn slab_depth(&self, v: [usize; 3], index: int) -> int {
        min_int(v[2] as int, self.dims[2] - self.slab_of(v, index) * v[2])
    }

    /// Blocks in one whole y strip of the slab holding `index`.
    pub open spec fn strip_blocks(&self, v: [usize; 3], index: int) -> int {
        self.dims[0] * v[1] * self.slab_depth(v, index)
    }

    pub open spec fn strip_of(&self, v: [usize; 3], index: int) -> int {
        (index % self.slab_blocks(v)) / self.strip_blocks(v, index)
    }

    pub open spec fn strip_height(&self, v: [usize; 3], index: int) -> int {
        min_int(v[1] as int, self.dims[1] - self.strip_of(v, index) * v[1])
    }

    /// Blocks in one whole x tile of the strip holding `index`.
    pub open spec fn tile_blocks(&self, v: [usize; 3], index: int) -> int {
        v[0] * self.strip_height(v, index) * self.slab_depth(v, index)
    }

    /// Whether the block counts of the slab, strip and tile holding `index`
    /// all fit in `usize`.
    pub open spec fn tile_counts_fit(&self, v: [usize; 3], index: int) -> bool {
        &&& self.slab_blocks(v) <= usize::MAX
        &&& self.strip_blocks(v, index) <= usize::MAX
        &&& self.tile_blocks(v, index) <= usize::MAX
    }

    /// Position in tiled storage order of the cell at `c`.
    pub open spec fn tiled_index(&self, v: [usize; 3], c: [usize; 3]) -> int {
        let (dx, dy, dz) = (self.dims[0] as int, self.dims[1] as int, self.dims[2] as int);
        let (sx, sy, sz) = (v[0] as int, v[1] as int, v[2] as int);
        let vz = (c[2] as int) / sz;
        let depth = min_int(sz, dz - vz * sz);
        let vy = (c[1] as int) / sy;
        let height = min_int(sy, dy - vy * sy);
        let vx = (c[0] as int) / sx;
        let width = min_int(sx, dx - vx * sx);
        vz * (dx * dy * sz) + vy * (dx * sy * depth) + vx * (sx * height * depth) + ((c[2] - vz
            * sz) * height + (c[1] - vy * sy)) * width + (c[0] - vx * sx)
    }

    /// Position in storage order of the cell at `c`.
    pub open spec fn storage_index(&self, c: [usize; 3]) -> int {
        match self.voxel_size {
            None => c[0] + self.dims[0] * (c[1] + self.dims[1] * c[2]),
            Some(v) => self.tiled_index(v, c),
        }
    }

    /// Whether `c` names a cell of the grid.
    pub open spec fn in_grid(&self, c: [usize; 3]) -> bool {
        c[0] < self.dims[0] && c[1] < self.dims[1] && c[2] < self.dims[2]
    }

    /// Checks a grid's integer shape: the dimension product must fit in
    /// `usize`, no dimension may be zero, the product must match the
    /// reported block count, and no tile dimension may be zero. (The
    /// floating-point bounds are checked by the caller.)
    pub fn new(dims: [usize; 3], voxel_size: Option<[usize; 3]>, expected_len: usize) -> (r: Result<Self, String>)
        ensures
            (dims[0] * dims[1] > usize::MAX || dims[0] * dims[1] * dims[2] > usize::MAX) ==> (r
                matches Err(m) && m@ == overflow_message()),
            (dims[0] * dims[1] <= usize::MAX && dims[0] * dims[1] * dims[2] <= usize::MAX) ==> {
                if dims[0] == 0 || dims[1] == 0 || dims[2] == 0 || dims[0] * dims[1] * dims[2]
                    != expected_len {
                    r matches Err(m) && m@ == count_message(
                        (dims[0] * dims[1] * dims[2]) as nat,
                        expected_len as nat,
                    )
                } else if (match voxel_size {
                    Some(v) => v[0] == 0 || v[1] == 0 || v[2] == 0,
                    None => false,
                }) {
                    r matches Err(m) && m@ == zero_voxel_message()
                } else {
                    &&& r is Ok
                    &&& r->Ok_0.dims == dims
                    &&& r->Ok_0.voxel_size == voxel_size
                    &&& r->Ok_0.len == expected_len
                    &&& r->Ok_0.well_formed()
                }
            },
    {
        let xy = match dims[0].checked_mul(dims[1]) {
            Some(p) => p,
            None => {
                return Err(owned("regular block-grid dimensions overflow usize"));
            },
        };
        let len = match xy.checked_mul(dims[2]) {
            Some(p) => p,
            None => {
                return Err(owned("regular block-grid dimensions overflow usize"));
            },
        };
        if dims[0] == 0 || dims[1] == 0 || dims[2] == 0 || len != expected_len {
            return Err(count_mismatch_message(len, expected_len));
        }
        match voxel_size {
            Some(v) => {
                if v[0] == 0 || v[1] == 0 || v[2] == 0 {
                    return Err(owned("regular block-grid voxel dimensions must be non-zero"));
                }
            },
            None => {},
        }
        Ok(RegularBlockBounds { dims, voxel_size, len })
    }

    /// Grid coordinates of the block stored at `index`, or `None` when
    /// `index` is past the end (or, for tiled storage, when a tile group's
    /// block count does not fit in `usize`).
    #[verifier::spinoff_prover]
    #[verifier::rlimit(60)]
    pub fn coords(&self, index: usize) -> (r: Option<[usize; 3]>)
        requires
            self.well_formed(),
        ensures
            match self.voxel_size {
                None => (index < self.len) == r is Some,
                Some(v) => (index < self.len && self.tile_counts_fit(v, index as int)) == r is Some,
            },
            r matches Some(c) ==> self.in_grid(c) && self.storage_index(c) == index,
    {
        if index >= self.len {
            return None;
        }
        let dim_x = self.dims[0];
        let dim_y = self.dims[1];
        let dim_z = self.dims[2];
        proof {
            lemma_positive_product(dim_x as int, dim_y as int);
            lemma_positive_product(dim_x * dim_y, dim_z as int);
        }
        let (size_x, size_y, size_z) = match self.voxel_size {
            None => {
                let x = index % dim_x;
                let yz = index / dim_x;
                proof {
                    lemma_plain_order(index as int, dim_x as int, dim_y as int, dim_z as int);
                }
                return Some([x, yz % dim_y, yz / dim_y]);
            },
            Some(v) => (v[0], v[1], v[2]),
        };
        let ghost v = [size_x, size_y, size_z];
        proof {
            assert(self.voxel_size == Some(v));
        }
        let xy = dim_x * dim_y;
        let z_slab_blocks = match xy.checked_mul(size_z) {
            Some(p) => p,
            None => {
                return None;
            },
        };
        proof {
            lemma_group(index as int, xy as int, dim_z as int, size_z as int);
        }
        let voxel_z = index / z_slab_blocks;
        let mut remaining = index % z_slab_blocks;
        let z_start = voxel_z * size_z;
        let depth = if size_z < dim_z - z_start {
            size_z
        } else {
            dim_z - z_start
        };
        proof {
            lemma_positive_product(dim_x as int, depth as int);
            lemma_reassociate(dim_x as int, dim_y as int, depth as int);
            assert(remaining < (dim_x * depth) * dim_y);
        }
        let y_strip_blocks = match dim_x.checked_mul(size_y) {
            Some(p) => match p.checked_mul(depth) {
                Some(q) => q,
                None => {
                    return None;
                },
            },
            None => {
                proof {
                    lemma_product_overflow(dim_x as int, size_y as int, depth as int);
                }
                return None;
            },
        };
        proof {
            lemma_reassociate(dim_x as int, size_y as int, depth as int);
            lemma_group(remaining as int, (dim_x * depth) as int, dim_y as int, size_y as int);
        }
        let ghost rem1 = remaining;
        let voxel_y = remaining / y_strip_blocks;
        remaining = remaining % y_strip_blocks;
        let y_start = voxel_y * size_y;
        let height = if size_y < dim_y - y_start {
            size_y
        } else {
            dim_y - y_start
        };
        proof {
            lemma_positive_product(height as int, depth as int);
            lemma_reassociate(dim_x as int, depth as int, height as int);
            assert(remaining < (height * depth) * dim_x) by (nonlinear_arith)
                requires
                    remaining < dim_x * depth * height,
            ;
        }
        let x_voxel_blocks = match size_x.checked_mul(height) {
            Some(p) => match p.checked_mul(depth) {
                Some(q) => q,
                None => {
                    return None;
                },
            },
            None => {
                proof {
                    lemma_product_overflow(size_x as int, height as int, depth as int);
                }
                return None;
            },
        };
        proof {
            lemma_reassociate(size_x as int, height as int, depth as int);
            lemma_group(remaining as int, (height * depth) as int, dim_x as int, size_x as int);
        }
        let ghost rem2 = remaining;
        let voxel_x = remaining / x_voxel_blocks;
        remaining = remaining % x_voxel_blocks;
        let x_start = voxel_x * size_x;
        let width = if size_x < dim_x - x_start {
            size_x
        } else {
            dim_x - x_start
        };
        proof {
            lemma_local_order(remaining as int, width as int, height as int, depth as int);
        }
        let local_x = remaining % width;
        let local_yz = remaining / width;
        let local_y = local_yz % height;
        let local_z = local_yz / height;
        let c = [x_start + local_x, y_start + local_y, z_start + local_z];
        proof {
            lemma_tile_coordinate(voxel_z as int, size_z as int, local_z as int, depth as int);
            lemma_tile_coordinate(voxel_y as int, size_y as int, local_y as int, height as int);
            lemma_tile_coordinate(voxel_x as int, size_x as int, local_x as int, width as int);
            assert(self.tiled_index(v, c) == index);
        }
        Some(c)
    }
}

proof fn lemma_positive_product(a: int, b: int)
    requires
        a > 0,
        b > 0,
    ensures
        a * b > 0,
        a * b >= a,
        a * b >= b,
{
    assert(a * b > 0 && a * b >= a && a * b >= b) by (nonlinear_arith)
        requires
            a > 0,
            b > 0,
    ;
}

proof fn lemma_reassociate(a: int, b: int, c: int)
    ensures
        a * b * c == (a * c) * b,
        a * b * c == a * (b * c),
        a * b * c == (b * c) * a,
{
    assert(a * b * c == (a * c) * b && a * b * c == a * (b * c) && a * b * c == (b * c) * a)
        by (nonlinear_arith);
}

proof fn lemma_product_overflow(a: int, b: int, c: int)
    requires
        a >= 0,
        b >= 0,
        c > 0,
        a * b > usize::MAX,
    ensures
        a * b * c > usize::MAX,
{
    assert(a * b * c >= a * b) by (nonlinear_arith)
        requires
            a * b >= 0,
            c > 0,
    ;
}

/// Locating the group of `a * s`-sized blocks that holds item `n` of an
/// `a * d` range: the group starts below `d` and what remains fits in the
/// (possibly clipped) last group.
proof fn lemma_group(n: int, a: int, d: int, s: int)
    requires
        a > 0,
        d > 0,
        s > 0,
        0 <= n < a * d,
    ensures
        a * s > 0,
        n / (a * s) >= 0,
        (n / (a * s)) * s < d,
        n % (a * s) < a * min_int(s, d - (n / (a * s)) * s),
        n % (a * s) >= 0,
        n == (n / (a * s)) * (a * s) + n % (a * s),
{
    let q = a * s;
    lemma_positive_product(a, s);
    let v = n / q;
    let r = n % q;
    assert(n == v * q + r && 0 <= r < q && v >= 0) by (nonlinear_arith)
        requires
            q > 0,
            n >= 0,
            v == n / q,
            r == n % q,
    ;
    assert(v * s < d) by (nonlinear_arith)
        requires
            n == v * q + r,
            r >= 0,
            q == a * s,
            n < a * d,
            a > 0,
            v >= 0,
    ;
    if s <= d - v * s {
        assert(r < a * min_int(s, d - v * s));
    } else {
        assert(r < a * (d - v * s)) by (nonlinear_arith)
            requires
                n == v * q + r,
                q == a * s,
                n < a * d,
        ;
    }
}

/// Plain x-fastest order: decoding `index` and encoding the result again
/// gives `index` back, inside the grid.
proof fn lemma_plain_order(index: int, dx: int, dy: int, dz: int)
    requires
        dx > 0,
        dy > 0,
        dz > 0,
        0 <= index < dx * dy * dz,
    ensures
        index % dx < dx,
        (index / dx) % dy < dy,
        (index / dx) / dy < dz,
        index == index % dx + dx * ((index / dx) % dy + dy * ((index / dx) / dy)),
{
    let x = index % dx;
    let yz = index / dx;
    assert(index == yz * dx + x && 0 <= x < dx && yz >= 0) by (nonlinear_arith)
        requires
            dx > 0,
            index >= 0,
            x == index % dx,
            yz == index / dx,
    ;
    let y = yz % dy;
    let z = yz / dy;
    assert(yz == z * dy + y && 0 <= y < dy && z >= 0) by (nonlinear_arith)
        requires
            dy > 0,
            yz >= 0,
            y == yz % dy,
            z == yz / dy,
    ;
    assert(z < dz) by (nonlinear_arith)
        requires
            index == yz * dx + x,
            yz == z * dy + y,
            x >= 0,
            y >= 0,
            dx > 0,
            dy > 0,
            index < dx * dy * dz,
    ;
    assert(index == x + dx * (y + dy * z)) by (nonlinear_arith)
        requires
            index == yz * dx + x,
            yz == z * dy + y,
    ;
}

/// Inside a `width * height * depth` tile, x-fastest order decodes to local
/// coordinates inside the tile.
proof fn lemma_local_order(r: int, width: int, height: int, depth: int)
    requires
        width > 0,
        height > 0,
        depth > 0,
        0 <= r < height * depth * width,
    ensures
        r % width < width,
        (r / width) % height < height,
        (r / width) / height < depth,
        r == ((r / width) / height * height + (r / width) % height) * width + r % width,
{
    let x = r % width;
    let yz = r / width;
    assert(r == yz * width + x && 0 <= x < width && yz >= 0) by (nonlinear_arith)
        requires
            width > 0,
            r >= 0,
            x == r % width,
            yz == r / width,
    ;
    let y = yz % height;
    let z = yz / height;
    assert(yz == z * height + y && 0 <= y < height && z >= 0) by (nonlinear_arith)
        requires
            height > 0,
            yz >= 0,
            y == yz % height,
            z == yz / height,
    ;
    assert(z < depth) by (nonlinear_arith)
        requires
            r == yz * width + x,
            yz == z * height + y,
            x >= 0,
            y >= 0,
            width > 0,
            height > 0,
            r < height * depth * width,
    ;
}

/// A coordinate `t * s + l` inside a tile (`l < len <= s`) lies in tile `t`.
proof fn lemma_tile_coordinate(t: int, s: int, l: int, len: int)
    requires
        t >= 0,
        s > 0,
        0 <= l < len,
        len <= s,
    ensures
        (t * s + l) / s == t,
        (t * s + l) - ((t * s + l) / s) * s == l,
{
    vstd::arithmetic::div_mod::lemma_fundamental_div_mod_converse(t * s + l, s, t, l);
}

} // verus!
