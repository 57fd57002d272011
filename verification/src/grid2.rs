//! The staggered grid with ghost border: its size rounded up to powers of
//! two, its cell kinds stored in Morton order, and a cache of the decoded
//! Morton indices.
use vstd::prelude::*;
use crate::grid::{CellInit, in_disc, lemma_span_term, slice_contains, span_sq};
use crate::labels::{label_objects, labels_objects, lemma_morton_rect, morton_rect};
use crate::morton::{morton_code, morton_coords, morton_decode, morton_encode};

verus! {

/// Two copies of a value: the one being read and the one being written.
#[derive(Clone, Copy, Debug, Default)]
pub struct DoubleBuffer<T: Copy + Default> {
    pub front: T,
    pub back: T,
}

impl<T: Copy + Default> DoubleBuffer<T> {
    /// Both copies hold `val`.
    pub fn new(val: T) -> (r: Self)
        ensures
            r.front == val,
            r.back == val,
    {
        Self { front: val, back: val }
    }

    /// Exchanges the two copies.
    pub fn swap(&mut self)
        ensures
            final(self).front == old(self).back,
            final(self).back == old(self).front,
    {
        std::mem::swap(&mut self.front, &mut self.back);
    }
}

/// The kind of a cell.
#[derive(PartialEq, Eq, Structural, Clone, Copy, Debug)]
pub enum Cell2Type {
    Fluid,
    Solid,
}

impl Default for Cell2Type {
    /// A cell is fluid unless made solid.
    fn default() -> (r: Self)
        ensures
            r == Cell2Type::Fluid,
    {
        Cell2Type::Fluid
    }
}

impl Cell2Type {
    /// Makes the cell solid or fluid.
    pub fn set_solid(&mut self, is_solid: bool)
        ensures
            *final(self) == if is_solid {
                Cell2Type::Solid
            } else {
                Cell2Type::Fluid
            },
    {
        *self = if is_solid {
            Cell2Type::Solid
        } else {
            Cell2Type::Fluid
        };
    }

    /// Whether the cell is solid.
    pub fn is_solid(&self) -> (r: bool)
        ensures
            r == (*self == Cell2Type::Solid),
    {
        *self == Cell2Type::Solid
    }
}

/// The smallest power of two not below `n` (1 for 0 and 1).
pub open spec fn next_pow2(n: nat) -> nat
    decreases n,
{
    if n <= 1 {
        1
    } else {
        2 * next_pow2(((n + 1) / 2) as nat)
    }
}

/// `b` is a power of two.
pub open spec fn is_pow2_nat(b: nat) -> bool
    decreases b,
{
    if b <= 1 {
        b == 1
    } else {
        b % 2 == 0 && is_pow2_nat(b / 2)
    }
}

/// Rounding up to a power of two never passes a power of two above.
pub proof fn lemma_next_pow2_le(n: nat, b: nat)
    requires
        n <= b,
        is_pow2_nat(b),
    ensures
        n <= next_pow2(n) <= b,
    decreases n,
{
    if n > 1 {
        lemma_next_pow2_le(((n + 1) / 2) as nat, b / 2);
    }
}

/// `r` is `1 << k` for some `k` below the width of `usize`.
pub open spec fn is_power_of_two(r: usize) -> bool {
    exists|k: usize| k < usize::BITS && r == #[trigger] (1usize << k)
}

/// `usize::next_power_of_two`: the smallest power of two greater than or
/// equal to `n`, which is `1 << k` for some `k` below the width of `usize`.
/// Its documentation leaves inputs whose result overflows (above half the
/// range) to a panic or a wrapped 0, so they are excluded.
#[verifier::external_body]
fn next_power_of_two(n: usize) -> (r: usize)
    requires
        n as int <= (usize::MAX as int + 1) / 2,
    ensures
        r as nat == next_pow2(n as nat),
        is_power_of_two(r),
{
    n.next_power_of_two()
}

/// The kind of cell `(i, j)` in a sequence of kinds in Morton order.
pub open spec fn kind_at(s: Seq<Cell2Type>, i: usize, j: usize) -> Cell2Type {
    s[morton_code(i, j) as int]
}

/// The cells of the grid in Morton order, each with its coordinates:
/// `(i, j, idx)`.
pub open spec fn morton_cells(n: int) -> Seq<(usize, usize, usize)> {
    Seq::new(n as nat, |k: int| (morton_coords(k as usize).0, morton_coords(k as usize).1, k as usize))
}

/// The staggered grid: its size and the kind of each cell, in Morton order.
pub struct Grid2 {
    width: usize,
    height: usize,
    cell_types: Vec<Cell2Type>,
    idx_cache: Vec<(usize, usize)>,
}

/// The kinds of the cells of the grid, one per Morton index.
impl View for Grid2 {
    type V = Seq<Cell2Type>;

    closed spec fn view(&self) -> Seq<Cell2Type> {
        self.cell_types@
    }
}

impl Grid2 {
    /// The grid is a Morton rectangle of cells, with one kind and one cached
    /// pair of coordinates per cell.
    pub closed spec fn wf(&self) -> bool {
        &&& morton_rect(self.width, self.height)
        &&& 1 <= self.width <= 0x8000
        &&& 1 <= self.height <= 0x8000
        &&& self.cell_types@.len() == self.width * self.height
        &&& self.idx_cache@.len() == self.width * self.height
        &&& forall|k: int| 0 <= k < self.idx_cache@.len() ==> #[trigger] self.idx_cache@[k] == morton_coords(k as usize)
    }

    /// Number of cells across.
    pub closed spec fn cols(&self) -> usize {
        self.width
    }

    /// Number of cells down.
    pub closed spec fn rows(&self) -> usize {
        self.height
    }

    /// Number of cells across.
    pub fn width(&self) -> (r: usize)
        requires
            self.wf(),
        ensures
            r == self.cols(),
            1 <= r <= 0x8000,
    {
        self.width
    }

    /// Number of cells down.
    pub fn height(&self) -> (r: usize)
        requires
            self.wf(),
        ensures
            r == self.rows(),
            1 <= r <= 0x8000,
    {
        self.height
    }

    /// Number of cells.
    pub fn len(&self) -> (r: usize)
        requires
            self.wf(),
        ensures
            r == self@.len(),
            r == self.cols() * self.rows(),
            morton_rect(self.cols(), self.rows()),
    {
        self.cell_types.len()
    }

    /// A grid of at least `width` by `height` cells, both rounded up to
    /// powers of two, all fluid but the outer ring, which is solid.
    pub fn new(width: usize, height: usize) -> (grid: Self)
        requires
            width <= 0x8000,
            height <= 0x8000,
            next_pow2(height as nat) <= next_pow2(width as nat) <= 2 * next_pow2(height as nat),
        ensures
            grid.wf(),
            grid.cols() == next_pow2(width as nat),
            grid.rows() == next_pow2(height as nat),
            grid@.len() == grid.cols() * grid.rows(),
            morton_rect(grid.cols(), grid.rows()),
            forall|i: usize, j: usize|
                i < grid.cols() && j < grid.rows() ==> #[trigger] kind_at(grid@, i, j) == if i == 0 || j == 0 || i
                    == grid.cols() - 1 || j == grid.rows() - 1 {
                    Cell2Type::Solid
                } else {
                    Cell2Type::Fluid
                },
    {
        proof {
            reveal_with_fuel(is_pow2_nat, 17);
            assert(is_pow2_nat(0x8000));
            lemma_next_pow2_le(width as nat, 0x8000);
            lemma_next_pow2_le(height as nat, 0x8000);
        }
        let w = next_power_of_two(width);
        let h = next_power_of_two(height);
        proof {
            assert((w as int) * (h as int) <= 0x4000_0000) by (nonlinear_arith)
                requires
                    w <= 0x8000,
                    h <= 0x8000,
            ;
        }
        let total = w * h;
        proof {
            let kx = choose|k: usize| k < usize::BITS && w == #[trigger] (1usize << k);
            let ky = choose|k: usize| k < usize::BITS && h == #[trigger] (1usize << k);
            assert(ky <= kx && kx <= ky + 1 && kx <= 15) by (bit_vector)
                requires
                    w == 1usize << kx,
                    h == 1usize << ky,
                    kx < usize::BITS,
                    ky < usize::BITS,
                    h <= w,
                    w <= 2 * h,
                    w <= 0x8000,
            ;
            lemma_morton_rect(kx, ky);
            assert(1 <= h && h <= w) by (bit_vector)
                requires
                    h == 1usize << ky,
                    ky <= kx,
                    kx <= 15,
                    w == 1usize << kx,
            ;
        }
        let mut cell_types: Vec<Cell2Type> = Vec::new();
        while cell_types.len() < total
            invariant
                cell_types@.len() <= total,
                forall|k: int| 0 <= k < cell_types@.len() ==> #[trigger] cell_types@[k] == Cell2Type::Fluid,
            decreases total - cell_types@.len(),
        {
            cell_types.push(Cell2Type::Fluid);
        }
        let mut idx_cache: Vec<(usize, usize)> = Vec::new();
        let mut idx: usize = 0;
        while idx < total
            invariant
                idx <= total,
                idx_cache@.len() == idx,
                forall|k: int| 0 <= k < idx ==> #[trigger] idx_cache@[k] == morton_coords(k as usize),
            decreases total - idx,
        {
            idx_cache.push(morton_decode(idx));
            idx = idx + 1;
        }
        let mut grid = Self { width: w, height: h, cell_types, idx_cache };
        grid.set_boundary_walls();
        grid
    }

    /// Sets the kind of cell `(i, j)`.
    fn set_kind(&mut self, i: usize, j: usize, kind: Cell2Type)
        requires
            old(self).wf(),
            i < old(self).cols(),
            j < old(self).rows(),
        ensures
            final(self).wf(),
            final(self).cols() == old(self).cols(),
            final(self).rows() == old(self).rows(),
            final(self)@.len() == old(self)@.len(),
            forall|a: usize, b: usize|
                a < final(self).cols() && b < final(self).rows() ==> #[trigger] kind_at(final(self)@, a, b) == if a
                    == i && b == j {
                    kind
                } else {
                    kind_at(old(self)@, a, b)
                },
    {
        let idx = morton_encode(i, j);
        assert(idx < self.cell_types@.len());
        self.cell_types[idx] = kind;
        proof {
            assert forall|a: usize, b: usize| a < self.width && b < self.height implies #[trigger] kind_at(self@, a, b)
                == if a == i && b == j {
                kind
            } else {
                kind_at(old(self)@, a, b)
            } by {
                if !(a == i && b == j) {
                    assert(morton_coords(morton_code(a, b)) == (a, b));
                    assert(morton_coords(morton_code(i, j)) == (i, j));
                }
            }
        }
    }

    /// Makes the outer ring of cells solid.
    fn set_boundary_walls(&mut self)
        requires
            old(self).wf(),
        ensures
            final(self).wf(),
            final(self).cols() == old(self).cols(),
            final(self).rows() == old(self).rows(),
            final(self)@.len() == old(self)@.len(),
            forall|a: usize, b: usize|
                a < final(self).cols() && b < final(self).rows() ==> #[trigger] kind_at(final(self)@, a, b) == if a
                    == 0 || b == 0 || a == final(self).cols() - 1 || b == final(self).rows() - 1 {
                    Cell2Type::Solid
                } else {
                    kind_at(old(self)@, a, b)
                },
    {
        let ghost start = self@;
        let w = self.width;
        let h = self.height;
        let mut i: usize = 0;
        while i < w
            invariant
                self.wf(),
                self.cols() == w,
                self.rows() == h,
                1 <= w,
                1 <= h,
                i <= w,
                self@.len() == start.len(),
                forall|a: usize, b: usize|
                    a < w && b < h ==> #[trigger] kind_at(self@, a, b) == if a < i && (b == 0 || b == h - 1) {
                        Cell2Type::Solid
                    } else {
                        kind_at(start, a, b)
                    },
            decreases w - i,
        {
            self.set_kind(i, 0, Cell2Type::Solid);
            self.set_kind(i, h - 1, Cell2Type::Solid);
            i = i + 1;
        }
        let ghost mid = self@;
        let mut j: usize = 0;
        while j < h
            invariant
                self.wf(),
                self.cols() == w,
                self.rows() == h,
                1 <= w,
                1 <= h,
                j <= h,
                self@.len() == start.len(),
                forall|a: usize, b: usize|
                    a < w && b < h ==> #[trigger] kind_at(self@, a, b) == if b < j && (a == 0 || a == w - 1) {
                        Cell2Type::Solid
                    } else {
                        kind_at(mid, a, b)
                    },
            decreases h - j,
        {
            self.set_kind(0, j, Cell2Type::Solid);
            self.set_kind(w - 1, j, Cell2Type::Solid);
            j = j + 1;
        }
    }

    /// The Morton index of cell `(i, j)`.
    pub fn idx(&self, i: usize, j: usize) -> (r: usize)
        ensures
            r == morton_code(i, j),
    {
        morton_encode(i, j)
    }

    /// The cell `(i, j)` of Morton index `idx`, from the cache when the
    /// index is that of a cell of the grid.
    pub fn decode_idx(&self, idx: usize) -> (p: (usize, usize))
        requires
            self.wf(),
        ensures
            p == morton_coords(idx),
    {
        if idx < self.idx_cache.len() {
            self.idx_cache[idx]
        } else {
            morton_decode(idx)
        }
    }

    /// Whether `(i, j)` is a cell of the grid.
    pub fn in_bounds(&self, i: usize, j: usize) -> (r: bool)
        ensures
            r == (i < self.cols() && j < self.rows()),
    {
        i < self.width && j < self.height
    }

    /// Whether `(i, j)` is a cell of the grid off its outer ring.
    pub fn in_simulation_bounds(&self, i: usize, j: usize) -> (r: bool)
        requires
            self.wf(),
        ensures
            r == (i > 0 && i < self.cols() - 1 && j > 0 && j < self.rows() - 1),
    {
        i > 0 && i < self.width - 1 && j > 0 && j < self.height - 1
    }

    /// The index of `(i, j)` when it is a cell of the grid.
    pub fn try_idx(&self, i: usize, j: usize) -> (r: Option<usize>)
        ensures
            r == if i < self.cols() && j < self.rows() {
                Some(morton_code(i, j))
            } else {
                None
            },
    {
        if self.in_bounds(i, j) {
            Some(self.idx(i, j))
        } else {
            None
        }
    }

    /// The kind of the cell of index `idx`.
    pub fn cell_type(&self, idx: usize) -> (r: Cell2Type)
        requires
            self.wf(),
            idx < self@.len(),
        ensures
            r == self@[idx as int],
    {
        self.cell_types[idx]
    }

    /// Sets the kind of the cell of index `idx`.
    pub fn set_cell_type(&mut self, idx: usize, kind: Cell2Type)
        requires
            old(self).wf(),
            idx < old(self)@.len(),
        ensures
            final(self).wf(),
            final(self)@ == old(self)@.update(idx as int, kind),
            final(self).cols() == old(self).cols(),
            final(self).rows() == old(self).rows(),
    {
        self.cell_types[idx] = kind;
    }

    /// Every cell in Morton order, with its coordinates: `(i, j, idx)`.
    pub fn iter_morton(&self) -> (cells: Vec<(usize, usize, usize)>)
        requires
            self.wf(),
        ensures
            cells@ == morton_cells(self@.len() as int),
    {
        let mut cells: Vec<(usize, usize, usize)> = Vec::new();
        let mut idx: usize = 0;
        let n = self.cell_types.len();
        while idx < n
            invariant
                self.wf(),
                n == self@.len(),
                idx <= n,
                cells@ =~= morton_cells(idx as int),
            decreases n - idx,
        {
            let (i, j) = self.decode_idx(idx);
            cells.push((i, j, idx));
            idx = idx + 1;
        }
        cells
    }

    /// The cells off the outer ring, in Morton order, with their
    /// coordinates: `(i, j, idx)`.
    pub fn iter_simulation_cells(&self) -> (cells: Vec<(usize, usize, usize)>)
        requires
            self.wf(),
        ensures
            cells@ == morton_cells(self@.len() as int).filter(
                |c: (usize, usize, usize)| c.0 > 0 && c.0 < self.cols() - 1 && c.1 > 0 && c.1 < self.rows() - 1,
            ),
    {
        let all = self.iter_morton();
        let ghost pred = |c: (usize, usize, usize)| c.0 > 0 && c.0 < self.cols() - 1 && c.1 > 0 && c.1 < self.rows() - 1;
        let mut cells: Vec<(usize, usize, usize)> = Vec::new();
        let mut k: usize = 0;
        proof {
            reveal(Seq::filter);
            assert(all@.take(0).filter(pred) =~= Seq::<(usize, usize, usize)>::empty());
        }
        while k < all.len()
            invariant
                self.wf(),
                k <= all@.len(),
                all@ == morton_cells(self@.len() as int),
                pred == (|c: (usize, usize, usize)| c.0 > 0 && c.0 < self.cols() - 1 && c.1 > 0 && c.1 < self.rows() - 1),
                cells@ == all@.take(k as int).filter(pred),
            decreases all@.len() - k,
        {
            let (i, j, idx) = all[k];
            proof {
                reveal(Seq::filter);
                assert(all@.take(k + 1).drop_last() =~= all@.take(k as int));
                assert(all@.take(k + 1).last() == all@[k as int]);
            }
            if self.in_simulation_bounds(i, j) {
                cells.push((i, j, idx));
            }
            k = k + 1;
        }
        proof {
            assert(all@.take(all@.len() as int) =~= all@);
        }
        cells
    }

    /// The indices of the four neighbours of `(i, j)` that exist, as
    /// `[[left, top], [right, bottom]]`.
    fn get_neighbor_indices(&self, i: usize, j: usize) -> (r: [[Option<usize>; 2]; 2])
        requires
            self.wf(),
            i < self.cols(),
            j < self.rows(),
        ensures
            r[0][0] == if i > 0 { Some(morton_code((i - 1) as usize, j)) } else { None::<usize> },
            r[0][1] == if j > 0 { Some(morton_code(i, (j - 1) as usize)) } else { None::<usize> },
            r[1][0] == if i + 1 < self.cols() { Some(morton_code((i + 1) as usize, j)) } else { None::<usize> },
            r[1][1] == if j + 1 < self.rows() { Some(morton_code(i, (j + 1) as usize)) } else { None::<usize> },
    {
        [
            [
                if i > 0 {
                    Some(self.idx(i - 1, j))
                } else {
                    None
                },
                if j > 0 {
                    Some(self.idx(i, j - 1))
                } else {
                    None
                },
            ],
            [
                if i + 1 < self.width {
                    Some(self.idx(i + 1, j))
                } else {
                    None
                },
                if j + 1 < self.height {
                    Some(self.idx(i, j + 1))
                } else {
                    None
                },
            ],
        ]
    }

    /// Makes cell `(i, j)` solid or fluid, when it is a cell of the grid.
    pub fn wall_init(&mut self, i: usize, j: usize, is_solid: bool) -> (r: CellInit)
        requires
            old(self).wf(),
        ensures
            final(self).wf(),
            final(self).cols() == old(self).cols(),
            final(self).rows() == old(self).rows(),
            final(self)@.len() == old(self)@.len(),
            r == if i < old(self).cols() && j < old(self).rows() {
                CellInit::Applied
            } else {
                CellInit::OutOfBounds
            },
            forall|a: usize, b: usize|
                a < final(self).cols() && b < final(self).rows() ==> #[trigger] kind_at(final(self)@, a, b) == if a
                    == i && b == j {
                    if is_solid {
                        Cell2Type::Solid
                    } else {
                        Cell2Type::Fluid
                    }
                } else {
                    kind_at(old(self)@, a, b)
                },
    {
        if self.in_bounds(i, j) {
            let mut kind = Cell2Type::Fluid;
            kind.set_solid(is_solid);
            self.set_kind(i, j, kind);
            CellInit::Applied
        } else {
            CellInit::OutOfBounds
        }
    }

    /// The objects of the grid: each group of solid cells joined through
    /// their sides gets its own number, from 1 on in Morton order of their
    /// first cell; fluid cells get 0.
    pub fn identify_objects(&self) -> (ids: Vec<usize>)
        requires
            self.wf(),
        ensures
            labels_objects(self@.map_values(|t: Cell2Type| t == Cell2Type::Solid), self.cols(), self.rows(), ids@),
    {
        let n = self.cell_types.len();
        let mut solid: Vec<bool> = Vec::new();
        while solid.len() < n
            invariant
                n == self@.len(),
                solid@.len() <= n,
                forall|k: int| 0 <= k < solid@.len() ==> #[trigger] solid@[k] == (self@[k] == Cell2Type::Solid),
            decreases n - solid@.len(),
        {
            let k = solid.len();
            solid.push(self.cell_types[k] == Cell2Type::Solid);
        }
        proof {
            assert(solid@ =~= self@.map_values(|t: Cell2Type| t == Cell2Type::Solid));
        }
        label_objects(&solid, self.width, self.height)
    }

    /// The solid cells row by row, as a text rendering shows them:
    /// `rows[j][i]` tells whether cell `(i, j)` is solid.
    pub fn solid_rows(&self) -> (rows: Vec<Vec<bool>>)
        requires
            self.wf(),
        ensures
            rows@.len() == self.rows(),
            forall|j: int| 0 <= j < self.rows() ==> (#[trigger] rows@[j])@.len() == self.cols(),
            forall|i: usize, j: usize|
                i < self.cols() && j < self.rows() ==> #[trigger] rows@[j as int]@[i as int] == (kind_at(self@, i, j)
                    == Cell2Type::Solid),
    {
        let mut rows: Vec<Vec<bool>> = Vec::new();
        let mut j: usize = 0;
        while j < self.height
            invariant
                self.wf(),
                j <= self.rows(),
                rows@.len() == j,
                forall|b: int| 0 <= b < j ==> (#[trigger] rows@[b])@.len() == self.cols(),
                forall|a: usize, b: usize|
                    a < self.cols() && b < j ==> #[trigger] rows@[b as int]@[a as int] == (kind_at(self@, a, b)
                        == Cell2Type::Solid),
            decreases self.rows() - j,
        {
            let mut row: Vec<bool> = Vec::new();
            let mut i: usize = 0;
            while i < self.width
                invariant
                    self.wf(),
                    i <= self.cols(),
                    j < self.rows(),
                    row@.len() == i,
                    forall|a: usize| a < i ==> #[trigger] row@[a as int] == (kind_at(self@, a, j) == Cell2Type::Solid),
                decreases self.cols() - i,
            {
                let idx = self.idx(i, j);
                row.push(self.cell_type(idx).is_solid());
                i = i + 1;
            }
            rows.push(row);
            j = j + 1;
        }
        rows
    }
}

/// The fluid cells of column `i`, rows `j_lo .. j_end`, in increasing row
/// order.
pub open spec fn fluid_column(s: Seq<Cell2Type>, i: usize, j_lo: usize, j_end: usize) -> Seq<usize>
    decreases j_end - j_lo,
{
    if j_end <= j_lo {
        Seq::empty()
    } else {
        let j = (j_end - 1) as usize;
        fluid_column(s, i, j_lo, j) + if kind_at(s, i, j) == Cell2Type::Fluid {
            seq![morton_code(i, j)]
        } else {
            Seq::empty()
        }
    }
}

/// The fluid cells of columns `i_lo .. i_end` and rows `j_lo .. j_end`,
/// column by column.
pub open spec fn fluid_box(s: Seq<Cell2Type>, i_lo: usize, i_end: usize, j_lo: usize, j_end: usize) -> Seq<usize>
    decreases i_end - i_lo,
{
    if i_end <= i_lo {
        Seq::empty()
    } else {
        fluid_box(s, i_lo, (i_end - 1) as usize, j_lo, j_end) + fluid_column(s, (i_end - 1) as usize, j_lo, j_end)
    }
}

/// The fluid cells of row `j`, columns `i_lo .. i_end`, in increasing column
/// order.
pub open spec fn fluid_row(s: Seq<Cell2Type>, j: usize, i_lo: usize, i_end: usize) -> Seq<usize>
    decreases i_end - i_lo,
{
    if i_end <= i_lo {
        Seq::empty()
    } else {
        let i = (i_end - 1) as usize;
        fluid_row(s, j, i_lo, i) + if kind_at(s, i, j) == Cell2Type::Fluid {
            seq![morton_code(i, j)]
        } else {
            Seq::empty()
        }
    }
}

/// The fluid cells of columns `i_lo .. i_end` on each row of `rows`, row
/// after row.
pub open spec fn fluid_rows(s: Seq<Cell2Type>, rows: Seq<usize>, i_lo: usize, i_end: usize) -> Seq<usize>
    decreases rows.len(),
{
    if rows.len() == 0 {
        Seq::empty()
    } else {
        fluid_rows(s, rows.drop_last(), i_lo, i_end) + fluid_row(s, rows.last(), i_lo, i_end)
    }
}

impl Grid2 {
    /// Makes solid the cells off the outer ring that lie in the disc of
    /// squared radius `radius_sq` around `(center_x, center_y)`.
    pub fn circle(&mut self, center_x: isize, center_y: isize, radius_sq: isize)
        requires
            old(self).wf(),
            old(self).cols() < 3 || old(self).rows() < 3 || span_sq(center_x as int, 1, old(self).cols() - 2)
                + span_sq(center_y as int, 1, old(self).rows() - 2) <= isize::MAX,
        ensures
            final(self).wf(),
            final(self).cols() == old(self).cols(),
            final(self).rows() == old(self).rows(),
            final(self)@.len() == old(self)@.len(),
            forall|a: usize, b: usize|
                a < final(self).cols() && b < final(self).rows() ==> #[trigger] kind_at(final(self)@, a, b) == if 1
                    <= a <= final(self).cols() - 2 && 1 <= b <= final(self).rows() - 2 && in_disc(
                    a as int,
                    b as int,
                    center_x as int,
                    center_y as int,
                    radius_sq as int,
                ) {
                    Cell2Type::Solid
                } else {
                    kind_at(old(self)@, a, b)
                },
    {
        let ghost start = self@;
        let w = self.width();
        let h = self.height();
        let mut i: usize = 1;
        while i < w - 1
            invariant
                self.wf(),
                self.cols() == w,
                self.rows() == h,
                1 <= w <= 0x8000,
                1 <= h <= 0x8000,
                1 <= i,
                i <= w - 1 || i == 1,
                self@.len() == start.len(),
                w < 3 || h < 3 || span_sq(center_x as int, 1, w - 2) + span_sq(center_y as int, 1, h - 2) <= isize::MAX,
                forall|a: usize, b: usize|
                    a < w && b < h ==> #[trigger] kind_at(self@, a, b) == if 1 <= a < i && 1 <= b <= h - 2 && in_disc(
                        a as int,
                        b as int,
                        center_x as int,
                        center_y as int,
                        radius_sq as int,
                    ) {
                        Cell2Type::Solid
                    } else {
                        kind_at(start, a, b)
                    },
            decreases w - i,
        {
            let mut j: usize = 1;
            while j < h - 1
                invariant
                    self.wf(),
                    self.cols() == w,
                    self.rows() == h,
                    1 <= w <= 0x8000,
                    1 <= h <= 0x8000,
                    1 <= i < w - 1,
                    1 <= j,
                    j <= h - 1 || j == 1,
                    self@.len() == start.len(),
                    w < 3 || h < 3 || span_sq(center_x as int, 1, w - 2) + span_sq(center_y as int, 1, h - 2)
                        <= isize::MAX,
                    forall|a: usize, b: usize|
                        a < w && b < h ==> #[trigger] kind_at(self@, a, b) == if 1 <= b <= h - 2 && in_disc(
                            a as int,
                            b as int,
                            center_x as int,
                            center_y as int,
                            radius_sq as int,
                        ) && (1 <= a < i || (a == i && b < j)) {
                            Cell2Type::Solid
                        } else {
                            kind_at(start, a, b)
                        },
                decreases h - j,
            {
                proof {
                    lemma_span_term(i as int, center_x as int, 1, w - 2);
                    lemma_span_term(j as int, center_y as int, 1, h - 2);
                }
                let dx = i as isize - center_x;
                let dy = j as isize - center_y;
                if dx * dx + dy * dy <= radius_sq {
                    let _ = self.wall_init(i, j, true);
                }
                j = j + 1;
            }
            i = i + 1;
        }
    }

    /// The fluid cells of columns `i_lo .. i_end` and rows `j_lo .. j_end`,
    /// column by column.
    pub fn fluid_cells(&self, i_lo: usize, i_end: usize, j_lo: usize, j_end: usize) -> (cells: Vec<usize>)
        requires
            self.wf(),
            i_lo >= i_end || j_lo >= j_end || (i_end <= self.cols() && j_end <= self.rows()),
        ensures
            cells@ == fluid_box(self@, i_lo, i_end, j_lo, j_end),
    {
        let mut cells: Vec<usize> = Vec::new();
        if i_lo >= i_end || j_lo >= j_end {
            proof {
                assert(fluid_box(self@, i_lo, i_end, j_lo, j_end) =~= Seq::empty()) by {
                    lemma_fluid_box_empty_rows(self@, i_lo, i_end, j_lo, j_end);
                }
            }
            return cells;
        }
        let mut i: usize = i_lo;
        while i < i_end
            invariant
                self.wf(),
                i_lo <= i <= i_end,
                j_lo < j_end,
                i_end <= self.cols(),
                j_end <= self.rows(),
                cells@ == fluid_box(self@, i_lo, i, j_lo, j_end),
            decreases i_end - i,
        {
            let ghost before = cells@;
            let mut j: usize = j_lo;
            while j < j_end
                invariant
                    self.wf(),
                    i_lo <= i < i_end,
                    j_lo <= j <= j_end,
                    i_end <= self.cols(),
                    j_end <= self.rows(),
                    cells@ == before + fluid_column(self@, i, j_lo, j),
                decreases j_end - j,
            {
                let idx = self.idx(i, j);
                proof {
                    assert(morton_rect(self.cols(), self.rows()));
                    assert(idx < self@.len());
                }
                if self.cell_type(idx) == Cell2Type::Fluid {
                    cells.push(idx);
                }
                proof {
                    assert(cells@ =~= before + fluid_column(self@, i, j_lo, (j + 1) as usize));
                }
                j = j + 1;
            }
            i = i + 1;
        }
        cells
    }

    /// The fluid cells of columns `i_lo .. i_end` on each row of `rows`, row
    /// after row.
    pub fn fluid_cells_on_rows(&self, rows: &[usize], i_lo: usize, i_end: usize) -> (cells: Vec<usize>)
        requires
            self.wf(),
            i_lo >= i_end || (i_end <= self.cols() && forall|k: int| 0 <= k < rows@.len() ==> #[trigger] rows@[k] < self.rows()),
        ensures
            cells@ == fluid_rows(self@, rows@, i_lo, i_end),
    {
        let mut cells: Vec<usize> = Vec::new();
        let mut k: usize = 0;
        while k < rows.len()
            invariant
                self.wf(),
                k <= rows@.len(),
                i_lo >= i_end || (i_end <= self.cols() && forall|m: int| 0 <= m < rows@.len() ==> #[trigger] rows@[m] < self.rows()),
                cells@ == fluid_rows(self@, rows@.take(k as int), i_lo, i_end),
            decreases rows@.len() - k,
        {
            let j = rows[k];
            let ghost before = cells@;
            let mut i: usize = i_lo;
            while i < i_end
                invariant
                    self.wf(),
                    i_lo <= i <= i_end || i == i_lo,
                    k < rows@.len(),
                    j == rows@[k as int],
                    i_lo >= i_end || (i_end <= self.cols() && j < self.rows()),
                    cells@ == before + fluid_row(self@, j, i_lo, i),
                decreases i_end - i,
            {
                let idx = self.idx(i, j);
                proof {
                    assert(morton_rect(self.cols(), self.rows()));
                    assert(idx < self@.len());
                }
                if self.cell_type(idx) == Cell2Type::Fluid {
                    cells.push(idx);
                }
                proof {
                    assert(cells@ =~= before + fluid_row(self@, j, i_lo, (i + 1) as usize));
                }
                i = i + 1;
            }
            proof {
                if i_lo >= i_end {
                    assert(fluid_row(self@, j, i_lo, i_end) =~= Seq::empty());
                    assert(fluid_row(self@, j, i_lo, i) =~= Seq::empty());
                }
                assert(rows@.take(k + 1).drop_last() =~= rows@.take(k as int));
                assert(rows@.take(k + 1).last() == j);
            }
            k = k + 1;
        }
        proof {
            assert(rows@.take(rows@.len() as int) =~= rows@);
        }
        cells
    }

    /// Builds the wind tunnel: solid walls on column 1 and, except at the
    /// rows listed in `hole_positions`, on column `1 + max(width / 30, 2)`,
    /// on the rows off the outer ring. Returns the fluid cells of the box
    /// between the walls, where the flow is to be set, and the fluid cells
    /// of the jets: on each hole row, the up to 5 cells right of the wall.
    pub fn initialize_wind_tunnel(&mut self, hole_positions: &[usize]) -> (r: (Vec<usize>, Vec<usize>))
        requires
            old(self).wf(),
            old(self).rows() < 3 || tunnel_right_wall(old(self).cols()) <= old(self).cols(),
            forall|k: int|
                0 <= k < hole_positions@.len() ==> #[trigger] hole_positions@[k] < old(self).rows() || tunnel_right_wall(
                    old(self).cols(),
                ) >= old(self).cols() - 1,
        ensures
            final(self).wf(),
            final(self).cols() == old(self).cols(),
            final(self).rows() == old(self).rows(),
            final(self)@.len() == old(self)@.len(),
            forall|a: usize, b: usize|
                a < final(self).cols() && b < final(self).rows() ==> #[trigger] kind_at(final(self)@, a, b) == if 1
                    <= b <= final(self).rows() - 2 && (a == 1 || (a == tunnel_right_wall(final(self).cols())
                    && !hole_positions@.contains(b))) {
                    Cell2Type::Solid
                } else {
                    kind_at(old(self)@, a, b)
                },
            forall|b: usize|
                1 <= b <= final(self).rows() - 2 && !hole_positions@.contains(b) && 1 + final(self).cols() / 30
                    < final(self).cols() ==> #[trigger] kind_at(final(self)@, (1 + final(self).cols() / 30) as usize, b)
                    == Cell2Type::Solid || final(self).cols() / 30 <= 2,
            forall|b: usize|
                1 <= b <= final(self).rows() - 2 && !hole_positions@.contains(b) && 3 < final(self).cols()
                    ==> #[trigger] kind_at(final(self)@, 3, b) == Cell2Type::Solid || final(self).cols() / 30 > 2,
            r.0@ == fluid_box(final(self)@, 2, tunnel_right_wall(final(self).cols()), 1, (final(self).rows() - 1) as usize),
            r.1@ == fluid_rows(
                final(self)@,
                hole_positions@,
                tunnel_right_wall(final(self).cols()),
                tunnel_jet_end(final(self).cols()),
            ),
    {
        let ghost start = self@;
        let w = self.width();
        let h = self.height();
        let left_wall: usize = 1;
        let box_width: usize = if w / 30 > 2 {
            w / 30
        } else {
            2
        };
        let right_wall = left_wall + box_width;
        let mut j: usize = 1;
        while j < h - 1
            invariant
                self.wf(),
                self.cols() == w,
                self.rows() == h,
                1 <= w <= 0x8000,
                1 <= h <= 0x8000,
                right_wall == tunnel_right_wall(w),
                left_wall == 1,
                1 <= j,
                j <= h - 1 || j == 1,
                self@.len() == start.len(),
                forall|a: usize, b: usize|
                    a < w && b < h ==> #[trigger] kind_at(self@, a, b) == if 1 <= b < j && b <= h - 2 && (a == 1 || (a
                        == right_wall && !hole_positions@.contains(b))) {
                        Cell2Type::Solid
                    } else {
                        kind_at(start, a, b)
                    },
            decreases h - j,
        {
            let _ = self.wall_init(left_wall, j, true);
            if !slice_contains(hole_positions, j) {
                let _ = self.wall_init(right_wall, j, true);
            }
            j = j + 1;
        }
        let fill = self.fluid_cells(left_wall + 1, right_wall, 1, h - 1);
        let jet_end = if right_wall + 5 < w - 1 {
            right_wall + 5
        } else {
            w - 1
        };
        let jets = self.fluid_cells_on_rows(hole_positions, right_wall, jet_end);
        (fill, jets)
    }

    /// Sets the grid up for Kármán vortices: makes solid the disc of squared
    /// radius `radius_sq` around `((width + 2) / 6, (height + 2) / 2)`.
    /// Returns the fluid cells of columns `1 ..= 14` on the rows off the
    /// outer ring, where the incoming flow is to be set.
    pub fn setup_karman_vortex(&mut self, radius_sq: isize) -> (fill: Vec<usize>)
        requires
            old(self).wf(),
            old(self).cols() < 3 || old(self).rows() < 3 || span_sq(((old(self).cols() + 2) / 6) as int, 1, old(self).cols() - 2)
                + span_sq(((old(self).rows() + 2) / 2) as int, 1, old(self).rows() - 2) <= isize::MAX,
            old(self).rows() < 3 || 15 <= old(self).cols(),
        ensures
            final(self).wf(),
            final(self).cols() == old(self).cols(),
            final(self).rows() == old(self).rows(),
            final(self)@.len() == old(self)@.len(),
            forall|a: usize, b: usize|
                a < final(self).cols() && b < final(self).rows() ==> #[trigger] kind_at(final(self)@, a, b) == if 1
                    <= a <= final(self).cols() - 2 && 1 <= b <= final(self).rows() - 2 && in_disc(
                    a as int,
                    b as int,
                    ((final(self).cols() + 2) / 6) as int,
                    ((final(self).rows() + 2) / 2) as int,
                    radius_sq as int,
                ) {
                    Cell2Type::Solid
                } else {
                    kind_at(old(self)@, a, b)
                },
            fill@ == fluid_box(final(self)@, 1, 15, 1, (final(self).rows() - 1) as usize),
    {
        let w = self.width();
        let h = self.height();
        let center = ((w + 2) / 6, (h + 2) / 2);
        self.circle(center.0 as isize, center.1 as isize, radius_sq);
        self.fluid_cells(1, 15, 1, h - 1)
    }
}

/// Right wall column of the wind tunnel of a grid `w` cells wide.
pub open spec fn tunnel_right_wall(w: usize) -> usize {
    (1 + if w / 30 > 2 {
        w / 30
    } else {
        2
    }) as usize
}

/// The right wall of the wind tunnel of a grid `w` cells wide lies on
/// column `1 + max(w / 30, 2)`: at least `1 + w / 30`, at least 3, and equal
/// to one of the two.
pub proof fn lemma_tunnel_right_wall(w: usize)
    ensures
        tunnel_right_wall(w) >= 1 + w / 30,
        tunnel_right_wall(w) >= 3,
        tunnel_right_wall(w) == 1 + w / 30 || tunnel_right_wall(w) == 3,
{
}

/// End (excluded) of the columns of the jets of the wind tunnel.
pub open spec fn tunnel_jet_end(w: usize) -> usize {
    if tunnel_right_wall(w) + 5 < w - 1 {
        (tunnel_right_wall(w) + 5) as usize
    } else {
        (w - 1) as usize
    }
}

proof fn lemma_fluid_column_empty(s: Seq<Cell2Type>, i: usize, j_lo: usize, j_end: usize)
    requires
        j_lo >= j_end,
    ensures
        fluid_column(s, i, j_lo, j_end) =~= Seq::empty(),
{
}

proof fn lemma_fluid_box_empty_rows(s: Seq<Cell2Type>, i_lo: usize, i_end: usize, j_lo: usize, j_end: usize)
    requires
        i_lo >= i_end || j_lo >= j_end,
    ensures
        fluid_box(s, i_lo, i_end, j_lo, j_end) =~= Seq::empty(),
    decreases i_end - i_lo,
{
    if i_end > i_lo {
        lemma_fluid_box_empty_rows(s, i_lo, (i_end - 1) as usize, j_lo, j_end);
        lemma_fluid_column_empty(s, (i_end - 1) as usize, j_lo, j_end);
    }
}

} // verus!
