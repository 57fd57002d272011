//! The square simulation grid: which cells are walls, stored in Morton order,
//! and the shapes that turn cells into walls.
use vstd::prelude::*;
use crate::labels::{label_objects, labels_objects, lemma_morton_rect, morton_rect};
use crate::line::{
    iabs,
    line_cells,
    line_coord_ok,
    lemma_line_start,
    lemma_walk_fuel,
    lemma_walk_step,
    remaining,
    step_dir,
    walk,
    walk_state,
};
use crate::morton::{lemma_morton_code_below_square, morton_code, morton_coords, morton_decode, morton_encode};

verus! {

/// Cells per side of the simulated area, without the ghost border.
pub const N: usize = 510;

/// Cells per side with the ghost border (`N + 2`): a power of two, so that
/// the Morton indices of the grid are exactly `0 .. SIZE`.
pub const SIDE: usize = 512;

/// Number of cells of the grid (`SIDE * SIDE`).
pub const SIZE: usize = 262144;

/// Whether a new grid gets walls all along its outer ring of cells.
pub const EXT_BORDER: bool = false;

/// The walls of the grid, one flag per cell in Morton order.
pub struct Grid {
    walls: Vec<bool>,
}

/// What `wall_init` did with the cell it was asked to change.
#[derive(PartialEq, Eq, Structural, Clone, Copy, Debug)]
pub enum CellInit {
    /// The cell was not a wall and now has the requested state.
    Applied,
    /// The cell is a wall, and walls are never changed.
    IsWall,
    /// The coordinates lie outside the grid.
    OutOfBounds,
}

/// The wall flag of cell `(i, j)` in a sequence of flags in Morton order.
pub open spec fn wall_at(s: Seq<bool>, i: usize, j: usize) -> bool {
    s[morton_code(i, j) as int]
}

/// `after` is `before` where the cells of the simulated area (coordinates up
/// to `N`) that lie in `shape` have become walls; no other cell changed.
pub open spec fn stamped(before: Seq<bool>, after: Seq<bool>, shape: spec_fn(int, int) -> bool) -> bool {
    &&& after.len() == before.len()
    &&& forall|i: usize, j: usize|
        i < SIDE && j < SIDE ==> #[trigger] wall_at(after, i, j) == (wall_at(before, i, j) || (i <= N && j <= N
            && shape(i as int, j as int)))
}

/// The cell lies in the box `[x_lo, x_hi] x [y_lo, y_hi]`.
pub open spec fn in_box(a: int, b: int, x_lo: int, x_hi: int, y_lo: int, y_hi: int) -> bool {
    x_lo <= a <= x_hi && y_lo <= b <= y_hi
}

/// The cell lies in the disc of squared radius `r2` around `(cx, cy)`.
pub open spec fn in_disc(a: int, b: int, cx: int, cy: int, r2: int) -> bool {
    (a - cx) * (a - cx) + (b - cy) * (b - cy) <= r2
}

/// Division that rounds towards zero, as Rust's integer division does.
pub open spec fn trunc_div(a: int, b: int) -> int {
    if a >= 0 {
        a / b
    } else {
        -((-a) / b)
    }
}

/// Half the width of the triangle's row `dy` rows below its top: the row
/// `dy` (counted from the base) spans `cx - w .. cx + w`.
pub open spec fn triangle_half_width(dy: int, height: int, half_base: int) -> int {
    trunc_div(2 * dy * half_base, height)
}

/// The cell lies in one of the first `rows` rows of the filled triangle of
/// the given height and half base, whose base row is `cy + height`.
pub open spec fn in_triangle_rows(a: int, b: int, cx: int, cy: int, height: int, half_base: int, rows: int) -> bool {
    let dy = cy + height - b;
    &&& 0 <= dy < rows
    &&& dy < height
    &&& cx - triangle_half_width(dy, height, half_base) <= a <= cx + triangle_half_width(dy, height, half_base)
}

/// The grid as a sequence of wall flags, one per Morton index.
impl View for Grid {
    type V = Seq<bool>;

    closed spec fn view(&self) -> Seq<bool> {
        self.walls@
    }
}

/// For coordinates of 16 bits, `try_index` finds a cell exactly when both
/// coordinates lie in `0 .. SIDE`.
pub proof fn lemma_index_in_grid(i: usize, j: usize)
    requires
        i < 0x1_0000,
        j < 0x1_0000,
    ensures
        morton_code(i, j) < SIZE <==> (i < SIDE && j < SIDE),
{
    lemma_grid_rect();
    assert(1usize << 9usize == 512usize) by (bit_vector);
    assert(1usize << 18usize == 262144usize) by (bit_vector);
    if morton_code(i, j) < SIZE {
        lemma_morton_code_below_square(i, j, 9);
    }
}

proof fn lemma_grid_rect()
    ensures
        morton_rect(SIDE, SIDE),
        SIDE * SIDE == SIZE,
{
    lemma_morton_rect(9, 9);
    assert(1usize << 9usize == 512usize) by (bit_vector);
    assert(9usize + 9usize == 18usize);
    assert(1usize << 18usize == 262144usize) by (bit_vector);
}

impl Grid {
    #[verifier::type_invariant]
    spec fn wf(&self) -> bool {
        self.walls@.len() == SIZE
    }

    /// A grid without walls, or with walls on its outer ring when
    /// `EXT_BORDER` is set.
    pub fn new() -> (grid: Self)
        ensures
            grid@.len() == SIZE,
            forall|i: usize, j: usize|
                i < SIDE && j < SIDE ==> #[trigger] wall_at(grid@, i, j) == (EXT_BORDER && (i == 0 || i == SIDE - 1
                    || j == 0 || j == SIDE - 1)),
    {
        let mut walls: Vec<bool> = Vec::new();
        while walls.len() < SIZE
            invariant
                walls@.len() <= SIZE,
                forall|k: int| 0 <= k < walls@.len() ==> !#[trigger] walls@[k],
            decreases SIZE - walls@.len(),
        {
            walls.push(false);
        }
        let mut grid = Grid { walls };
        proof {
            lemma_grid_rect();
        }
        if EXT_BORDER {
            grid.set_outer_walls();
        }
        grid
    }

    /// Turns every cell of the outer ring (first and last row and column)
    /// into a wall.
    pub fn set_outer_walls(&mut self)
        ensures
            final(self)@.len() == SIZE,
            forall|i: usize, j: usize|
                i < SIDE && j < SIDE ==> #[trigger] wall_at(final(self)@, i, j) == (wall_at(old(self)@, i, j) || i
                    == 0 || i == SIDE - 1 || j == 0 || j == SIDE - 1),
    {
        proof {
            use_type_invariant(&*self);
            lemma_grid_rect();
        }
        let ghost start = self@;
        let mut i: usize = 0;
        while i <= N + 1
            invariant
                self@.len() == SIZE,
                i <= N + 2,
                forall|a: usize, b: usize|
                    a < SIDE && b < SIDE ==> #[trigger] wall_at(self@, a, b) == (wall_at(start, a, b) || (a < i && (b
                        == 0 || b == SIDE - 1))),
            decreases N + 2 - i,
        {
            proof {
                lemma_grid_rect();
                assert(morton_code(i, 0) < SIZE);
                assert(morton_code(i, (N + 1) as usize) < SIZE);
            }
            if let Some(idx) = self.try_index(i, 0) {
                self.set_wall_at(i, 0, idx, true);
            }
            if let Some(idx) = self.try_index(i, N + 1) {
                self.set_wall_at(i, N + 1, idx, true);
            }
            i = i + 1;
        }
        let ghost mid = self@;
        let mut j: usize = 0;
        while j <= N + 1
            invariant
                self@.len() == SIZE,
                j <= N + 2,
                forall|a: usize, b: usize|
                    a < SIDE && b < SIDE ==> #[trigger] wall_at(self@, a, b) == (wall_at(mid, a, b) || (b < j && (a
                        == 0 || a == SIDE - 1))),
            decreases N + 2 - j,
        {
            proof {
                lemma_grid_rect();
                assert(morton_code(0, j) < SIZE);
                assert(morton_code((N + 1) as usize, j) < SIZE);
            }
            if let Some(idx) = self.try_index(0, j) {
                self.set_wall_at(0, j, idx, true);
            }
            if let Some(idx) = self.try_index(N + 1, j) {
                self.set_wall_at(N + 1, j, idx, true);
            }
            j = j + 1;
        }
    }

    /// Sets the flag of cell `(i, j)`, whose index is `idx`.
    fn set_wall_at(&mut self, i: usize, j: usize, idx: usize, wall: bool)
        requires
            i < SIDE,
            j < SIDE,
            idx == morton_code(i, j),
        ensures
            final(self)@.len() == SIZE,
            forall|a: usize, b: usize|
                a < SIDE && b < SIDE ==> #[trigger] wall_at(final(self)@, a, b) == if a == i && b == j {
                    wall
                } else {
                    wall_at(old(self)@, a, b)
                },
    {
        proof {
            use_type_invariant(&*self);
            lemma_grid_rect();
        }
        self.walls[idx] = wall;
        proof {
            assert forall|a: usize, b: usize| a < SIDE && b < SIDE implies #[trigger] wall_at(self@, a, b) == if a
                == i && b == j {
                wall
            } else {
                wall_at(old(self)@, a, b)
            } by {
                if !(a == i && b == j) {
                    assert(morton_coords(morton_code(a, b)) == (a, b));
                    assert(morton_coords(morton_code(i, j)) == (i, j));
                }
            }
        }
    }

    /// Whether `(i, j)` lies in the simulated area (the grid without its
    /// ghost border).
    pub fn in_bounds(&self, i: usize, j: usize) -> (r: bool)
        ensures
            r == (i >= 1 && i <= N && j >= 1 && j <= N),
    {
        i >= 1 && i <= N && j >= 1 && j <= N
    }

    /// The Morton index of cell `(i, j)`.
    pub fn to_index(&self, i: usize, j: usize) -> (idx: usize)
        ensures
            idx == morton_code(i, j),
    {
        morton_encode(i, j)
    }

    /// The cell `(i, j)` whose Morton index is `idx`.
    pub fn decode_index(&self, idx: usize) -> (p: (usize, usize))
        ensures
            p == morton_coords(idx),
    {
        morton_decode(idx)
    }

    /// The index of cell `(i, j)` when it lies in the grid.
    pub fn try_index(&self, i: usize, j: usize) -> (r: Option<usize>)
        ensures
            r == if morton_code(i, j) < SIZE {
                Some(morton_code(i, j))
            } else {
                None
            },
    {
        proof {
            use_type_invariant(self);
        }
        let idx = self.to_index(i, j);
        if idx < self.walls.len() {
            Some(idx)
        } else {
            None
        }
    }

    /// Every cell in Morton order, with its coordinates: `(i, j, idx)`.
    pub fn iter_morton(&self) -> (cells: Vec<(usize, usize, usize)>)
        ensures
            cells@.len() == SIZE,
            forall|k: int|
                0 <= k < SIZE ==> #[trigger] cells@[k] == (morton_coords(k as usize).0, morton_coords(k as usize).1, k as usize),
    {
        proof {
            use_type_invariant(self);
        }
        let mut cells: Vec<(usize, usize, usize)> = Vec::new();
        let mut idx: usize = 0;
        while idx < self.walls.len()
            invariant
                self.walls@.len() == SIZE,
                idx <= SIZE,
                cells@.len() == idx,
                forall|k: int|
                    0 <= k < idx ==> #[trigger] cells@[k] == (morton_coords(k as usize).0, morton_coords(k as usize).1, k as usize),
            decreases SIZE - idx,
        {
            let (i, j) = self.decode_index(idx);
            cells.push((i, j, idx));
            idx = idx + 1;
        }
        cells
    }

    /// Whether the cell of index `idx` is a wall.
    pub fn is_wall(&self, idx: usize) -> (r: bool)
        requires
            idx < SIZE,
        ensures
            r == self@[idx as int],
    {
        proof {
            use_type_invariant(self);
        }
        self.walls[idx]
    }

    /// Sets whether the cell of index `idx` is a wall.
    pub fn set_wall(&mut self, idx: usize, wall: bool)
        requires
            idx < SIZE,
        ensures
            final(self)@ == old(self)@.update(idx as int, wall),
    {
        proof {
            use_type_invariant(&*self);
        }
        self.walls[idx] = wall;
    }

    /// Makes the cell at row `line` and column `column` (the cell
    /// `(column, line)`) a wall or not. Walls are never changed, and the cell
    /// must lie in the grid.
    pub fn wall_init(&mut self, line: usize, column: usize, wall: bool) -> (r: CellInit)
        ensures
            final(self)@.len() == SIZE,
            r == if line <= N + 1 && column <= N + 1 {
                if wall_at(old(self)@, column, line) {
                    CellInit::IsWall
                } else {
                    CellInit::Applied
                }
            } else {
                CellInit::OutOfBounds
            },
            forall|a: usize, b: usize|
                a < SIDE && b < SIDE ==> #[trigger] wall_at(final(self)@, a, b) == if r == CellInit::Applied && a
                    == column && b == line {
                    wall
                } else {
                    wall_at(old(self)@, a, b)
                },
    {
        proof {
            use_type_invariant(&*self);
            lemma_grid_rect();
        }
        if line <= N + 1 && column <= N + 1 {
            let idx = self.to_index(column, line);
            if !self.walls[idx] {
                self.set_wall_at(column, line, idx, wall);
                CellInit::Applied
            } else {
                CellInit::IsWall
            }
        } else {
            CellInit::OutOfBounds
        }
    }

    /// Makes cell `(i, j)` a wall (it may be one already).
    fn mark_wall(&mut self, i: usize, j: usize)
        requires
            i < SIDE,
            j < SIDE,
        ensures
            final(self)@.len() == SIZE,
            forall|a: usize, b: usize|
                a < SIDE && b < SIDE ==> #[trigger] wall_at(final(self)@, a, b) == (wall_at(old(self)@, a, b) || (a
                    == i && b == j)),
    {
        let _ = self.wall_init(j, i, true);
    }

    /// The objects of the grid: each group of walls joined through their
    /// sides gets its own number, from 1 on in Morton order of their first
    /// cell; other cells get 0.
    pub fn identify_objects(&self) -> (ids: Vec<usize>)
        ensures
            labels_objects(self@, SIDE, SIDE, ids@),
    {
        proof {
            use_type_invariant(self);
            lemma_grid_rect();
        }
        label_objects(&self.walls, SIDE, SIDE)
    }

    /// The walls row by row, as a text rendering shows them: `rows[j][i]`
    /// tells whether cell `(i, j)` is a wall.
    pub fn wall_rows(&self) -> (rows: Vec<Vec<bool>>)
        ensures
            rows@.len() == SIDE,
            forall|j: int| 0 <= j < SIDE ==> (#[trigger] rows@[j])@.len() == SIDE,
            forall|i: usize, j: usize|
                i < SIDE && j < SIDE ==> #[trigger] rows@[j as int]@[i as int] == wall_at(self@, i, j),
    {
        proof {
            use_type_invariant(self);
            lemma_grid_rect();
        }
        let mut rows: Vec<Vec<bool>> = Vec::new();
        let mut j: usize = 0;
        while j < SIDE
            invariant
                self@.len() == SIZE,
                morton_rect(SIDE, SIDE),
                j <= SIDE,
                rows@.len() == j,
                forall|b: int| 0 <= b < j ==> (#[trigger] rows@[b])@.len() == SIDE,
                forall|a: usize, b: usize|
                    a < SIDE && b < j ==> #[trigger] rows@[b as int]@[a as int] == wall_at(self@, a, b),
            decreases SIDE - j,
        {
            let mut row: Vec<bool> = Vec::new();
            let mut i: usize = 0;
            while i < SIDE
                invariant
                    self@.len() == SIZE,
                    morton_rect(SIDE, SIDE),
                    i <= SIDE,
                    j < SIDE,
                    row@.len() == i,
                    forall|a: usize| a < i ==> #[trigger] row@[a as int] == wall_at(self@, a, j),
                decreases SIDE - i,
            {
                proof {
                    lemma_index_in_grid(i, j);
                }
                let idx = self.to_index(i, j);
                row.push(self.is_wall(idx));
                i = i + 1;
            }
            rows.push(row);
            j = j + 1;
        }
        rows
    }
}

/// `v` is a value of `isize`.
pub open spec fn fits_isize(v: int) -> bool {
    isize::MIN <= v <= isize::MAX
}

impl Grid {
    /// Makes walls of the cells of the simulated area in the box
    /// `[x_lo, x_hi] x [y_lo, y_hi]`.
    fn stamp_box(&mut self, x_lo: isize, x_hi: isize, y_lo: isize, y_hi: isize)
        ensures
            stamped(
                old(self)@,
                final(self)@,
                |a: int, b: int| in_box(a, b, x_lo as int, x_hi as int, y_lo as int, y_hi as int),
            ),
    {
        proof {
            use_type_invariant(&*self);
        }
        let ghost start = self@;
        let n: isize = N as isize;
        let lo_i: isize = if x_lo < 0 {
            0
        } else {
            x_lo
        };
        let hi_i: isize = if x_hi > n {
            n
        } else {
            x_hi
        };
        let lo_j: isize = if y_lo < 0 {
            0
        } else {
            y_lo
        };
        let hi_j: isize = if y_hi > n {
            n
        } else {
            y_hi
        };
        let mut i: isize = lo_i;
        while i <= hi_i
            invariant
                self@.len() == SIZE,
                start.len() == SIZE,
                n == N,
                0 <= lo_i <= i,
                lo_i == if x_lo < 0 { 0 } else { x_lo },
                hi_i == if x_hi > n { n } else { x_hi },
                lo_j == if y_lo < 0 { 0 } else { y_lo },
                hi_j == if y_hi > n { n } else { y_hi },
                i <= hi_i + 1 || i == lo_i,
                forall|a: usize, b: usize|
                    a < SIDE && b < SIDE ==> #[trigger] wall_at(self@, a, b) == (wall_at(start, a, b) || (a <= N && b
                        <= N && in_box(a as int, b as int, x_lo as int, x_hi as int, y_lo as int, y_hi as int) && a
                        < i)),
            decreases hi_i + 1 - i,
        {
            let mut j: isize = lo_j;
            while j <= hi_j
                invariant
                    self@.len() == SIZE,
                    start.len() == SIZE,
                    n == N,
                    0 <= lo_i <= i <= hi_i,
                    hi_i <= n,
                    0 <= lo_j <= j,
                    lo_i == if x_lo < 0 { 0 } else { x_lo },
                    hi_i == if x_hi > n { n } else { x_hi },
                    lo_j == if y_lo < 0 { 0 } else { y_lo },
                    hi_j == if y_hi > n { n } else { y_hi },
                    j <= hi_j + 1 || j == lo_j,
                    forall|a: usize, b: usize|
                        a < SIDE && b < SIDE ==> #[trigger] wall_at(self@, a, b) == (wall_at(start, a, b) || (a <= N
                            && b <= N && in_box(a as int, b as int, x_lo as int, x_hi as int, y_lo as int, y_hi as int)
                            && (a < i || (a == i && b < j)))),
                decreases hi_j + 1 - j,
            {
                self.mark_wall(i as usize, j as usize);
                j = j + 1;
            }
            i = i + 1;
        }
    }

    /// Walls in the square of cells `center ± half_side` on both axes
    /// (the cells of the simulated area that it covers).
    pub fn square(&mut self, center_x: isize, center_y: isize, half_side: isize)
        requires
            fits_isize(center_x - half_side),
            fits_isize(center_x + half_side),
            fits_isize(center_y - half_side),
            fits_isize(center_y + half_side),
        ensures
            stamped(
                old(self)@,
                final(self)@,
                |a: int, b: int|
                    in_box(
                        a,
                        b,
                        center_x - half_side,
                        center_x + half_side,
                        center_y - half_side,
                        center_y + half_side,
                    ),
            ),
    {
        let start_x = center_x - half_side;
        let end_x = center_x + half_side;
        let start_y = center_y - half_side;
        let end_y = center_y + half_side;
        self.stamp_box(start_x, end_x, start_y, end_y);
    }

    /// Walls in the rectangle of cells `center_x ± half_width` by
    /// `center_y ± half_height` (the cells of the simulated area it covers).
    pub fn rectangle(&mut self, center_x: isize, center_y: isize, half_width: isize, half_height: isize)
        requires
            fits_isize(center_x - half_width),
            fits_isize(center_x + half_width),
            fits_isize(center_y - half_height),
            fits_isize(center_y + half_height),
        ensures
            stamped(
                old(self)@,
                final(self)@,
                |a: int, b: int|
                    in_box(
                        a,
                        b,
                        center_x - half_width,
                        center_x + half_width,
                        center_y - half_height,
                        center_y + half_height,
                    ),
            ),
    {
        let start_x = center_x - half_width;
        let end_x = center_x + half_width;
        let start_y = center_y - half_height;
        let end_y = center_y + half_height;
        self.stamp_box(start_x, end_x, start_y, end_y);
    }
}

/// The cell `(a, b)` is one of the cells of the line.
pub open spec fn on_line(cells: Seq<(int, int)>, a: int, b: int) -> bool {
    exists|k: int| 0 <= k < cells.len() && #[trigger] cells[k] == (a, b)
}

/// The larger of the squared distances from `c` to `lo` and to `hi`: the
/// largest squared distance from `c` to a point of `[lo, hi]`.
pub open spec fn span_sq(c: int, lo: int, hi: int) -> int {
    if (lo - c) * (lo - c) >= (hi - c) * (hi - c) {
        (lo - c) * (lo - c)
    } else {
        (hi - c) * (hi - c)
    }
}

/// The largest squared distance from `c` to a coordinate of the simulated
/// area, `0 ..= N`.
pub open spec fn circle_span(c: int) -> int {
    span_sq(c, 0, N as int)
}

/// The row `dy` of the triangle can be computed in `isize`.
pub open spec fn triangle_row_fits(dy: int, center_x: int, height: int, half_base: int) -> bool {
    &&& fits_isize(2 * dy)
    &&& fits_isize(2 * dy * half_base)
    &&& fits_isize(center_x - triangle_half_width(dy, height, half_base))
    &&& fits_isize(center_x + triangle_half_width(dy, height, half_base))
}

/// Stamping twice stamps the union of the two shapes.
pub proof fn lemma_stamped_then(
    s0: Seq<bool>,
    s1: Seq<bool>,
    s2: Seq<bool>,
    f: spec_fn(int, int) -> bool,
    g: spec_fn(int, int) -> bool,
)
    requires
        stamped(s0, s1, f),
        stamped(s1, s2, g),
    ensures
        stamped(s0, s2, |a: int, b: int| f(a, b) || g(a, b)),
{
    assert forall|i: usize, j: usize| i < SIDE && j < SIDE implies #[trigger] wall_at(s2, i, j) == (wall_at(s0, i, j)
        || (i <= N && j <= N && (|a: int, b: int| f(a, b) || g(a, b))(i as int, j as int))) by {
        assert(wall_at(s1, i, j) == (wall_at(s0, i, j) || (i <= N && j <= N && f(i as int, j as int))));
    }
}

/// The squared distance from `c` to a point `a` of `[lo, hi]` is at most
/// `span_sq(c, lo, hi)`; when that fits in `isize`, so does `a - c`.
pub proof fn lemma_span_term(a: int, c: int, lo: int, hi: int)
    requires
        lo <= a <= hi,
    ensures
        0 <= (a - c) * (a - c) <= span_sq(c, lo, hi),
        -(isize::MAX as int) <= a - c <= isize::MAX || (a - c) * (a - c) > isize::MAX,
{
    let x = a - c;
    assert(0 <= x * x) by (nonlinear_arith);
    if x >= 0 {
        assert(x * x <= (hi - c) * (hi - c)) by (nonlinear_arith)
            requires
                0 <= x <= hi - c,
        ;
    } else {
        assert(x * x <= (lo - c) * (lo - c)) by (nonlinear_arith)
            requires
                lo - c <= x < 0,
        ;
    }
    assert(-(isize::MAX as int) <= x <= isize::MAX || x * x > isize::MAX) by (nonlinear_arith);
}

impl Grid {
    /// Walls in the disc of squared radius `radius_sq` around
    /// `(center_x, center_y)` (the cells of the simulated area it covers).
    pub fn circle(&mut self, center_x: isize, center_y: isize, radius_sq: isize)
        requires
            circle_span(center_x as int) + circle_span(center_y as int) <= isize::MAX,
        ensures
            stamped(
                old(self)@,
                final(self)@,
                |a: int, b: int| in_disc(a, b, center_x as int, center_y as int, radius_sq as int),
            ),
    {
        proof {
            use_type_invariant(&*self);
        }
        let ghost start = self@;
        let mut i: usize = 0;
        while i <= N
            invariant
                self@.len() == SIZE,
                start.len() == SIZE,
                i <= N + 1,
                circle_span(center_x as int) + circle_span(center_y as int) <= isize::MAX,
                forall|a: usize, b: usize|
                    a < SIDE && b < SIDE ==> #[trigger] wall_at(self@, a, b) == (wall_at(start, a, b) || (a <= N && b
                        <= N && in_disc(a as int, b as int, center_x as int, center_y as int, radius_sq as int) && a
                        < i)),
            decreases N + 1 - i,
        {
            let mut j: usize = 0;
            while j <= N
                invariant
                    self@.len() == SIZE,
                    start.len() == SIZE,
                    i <= N,
                    j <= N + 1,
                    circle_span(center_x as int) + circle_span(center_y as int) <= isize::MAX,
                    forall|a: usize, b: usize|
                        a < SIDE && b < SIDE ==> #[trigger] wall_at(self@, a, b) == (wall_at(start, a, b) || (a <= N
                            && b <= N && in_disc(a as int, b as int, center_x as int, center_y as int, radius_sq as int)
                            && (a < i || (a == i && b < j)))),
                decreases N + 1 - j,
            {
                proof {
                    lemma_span_term(i as int, center_x as int, 0, N as int);
                    lemma_span_term(j as int, center_y as int, 0, N as int);
                }
                let dx = i as isize - center_x;
                let dy = j as isize - center_y;
                if dx * dx + dy * dy <= radius_sq {
                    self.mark_wall(i, j);
                }
                j = j + 1;
            }
            i = i + 1;
        }
    }

    /// Walls in the filled triangle of the given height whose base row
    /// `center_y + height` has half width `half_base`: the row `dy` rows
    /// above the base spans `center_x ± 2 * dy * half_base / height`
    /// (rounded towards zero), for `dy` in `0 .. height`.
    pub fn triangle(&mut self, center_x: isize, center_y: isize, height: isize, half_base: isize)
        requires
            height <= 0 || fits_isize(center_y + height),
            forall|dy: int| 0 <= dy < height ==> #[trigger] triangle_row_fits(dy, center_x as int, height as int, half_base as int),
        ensures
            stamped(
                old(self)@,
                final(self)@,
                |a: int, b: int|
                    in_triangle_rows(a, b, center_x as int, center_y as int, height as int, half_base as int, height as int),
            ),
    {
        proof {
            use_type_invariant(&*self);
        }
        let ghost start = self@;
        let ghost shape = |a: int, b: int|
            in_triangle_rows(a, b, center_x as int, center_y as int, height as int, half_base as int, height as int);
        if height <= 0 {
            proof {
                assert forall|i: usize, j: usize| i < SIDE && j < SIDE implies #[trigger] wall_at(self@, i, j) == (wall_at(start, i, j)
                    || (i <= N && j <= N && shape(i as int, j as int))) by {}
            }
            return;
        }
        let n: isize = N as isize;
        let top: isize = center_y + height;
        let dy_lo: isize = if top > n {
            top - n
        } else {
            0
        };
        let dy_hi: isize = if top < height - 1 {
            top
        } else {
            height - 1
        };
        let mut dy: isize = dy_lo;
        while dy <= dy_hi
            invariant
                self@.len() == SIZE,
                start.len() == SIZE,
                height > 0,
                n == N,
                top == center_y + height,
                dy_lo == if top > n { top - n } else { 0int },
                dy_hi == if top < height - 1 { top as int } else { height - 1 },
                dy_lo <= dy,
                dy <= dy_hi + 1 || dy == dy_lo,
                forall|d: int| 0 <= d < height ==> #[trigger] triangle_row_fits(d, center_x as int, height as int, half_base as int),
                forall|a: usize, b: usize|
                    a < SIDE && b < SIDE ==> #[trigger] wall_at(self@, a, b) == (wall_at(start, a, b) || (a <= N && b
                        <= N && in_triangle_rows(a as int, b as int, center_x as int, center_y as int, height as int, half_base as int, dy as int))),
            decreases dy_hi + 1 - dy,
        {
            proof {
                assert(triangle_row_fits(dy as int, center_x as int, height as int, half_base as int));
            }
            let width_at_y = (2 * dy * half_base) / height;
            let y = top - dy;
            let ghost before = self@;
            self.stamp_box(center_x - width_at_y, center_x + width_at_y, y, y);
            proof {
                assert forall|a: usize, b: usize| a < SIDE && b < SIDE implies #[trigger] wall_at(self@, a, b) == (wall_at(start, a, b)
                    || (a <= N && b <= N && in_triangle_rows(a as int, b as int, center_x as int, center_y as int, height as int, half_base as int, dy + 1))) by {
                    assert(wall_at(before, a, b) == (wall_at(start, a, b) || (a <= N && b <= N && in_triangle_rows(a as int, b as int, center_x as int, center_y as int, height as int, half_base as int, dy as int))));
                }
            }
            dy = dy + 1;
        }
        proof {
            assert forall|a: usize, b: usize| a < SIDE && b < SIDE implies #[trigger] wall_at(self@, a, b) == (wall_at(start, a, b)
                || (a <= N && b <= N && shape(a as int, b as int))) by {}
        }
    }

    /// Walls along the digital line from `(x0, y0)` to `(x1, y1)` (its cells
    /// in the simulated area), drawn by Bresenham's algorithm where a tie of
    /// the error term takes the step.
    fn draw_line(&mut self, x0: isize, y0: isize, x1: isize, y1: isize)
        requires
            line_coord_ok(x0 as int),
            line_coord_ok(y0 as int),
            line_coord_ok(x1 as int),
            line_coord_ok(y1 as int),
        ensures
            stamped(
                old(self)@,
                final(self)@,
                |a: int, b: int| on_line(line_cells(x0 as int, y0 as int, x1 as int, y1 as int, true), a, b),
            ),
    {
        proof {
            use_type_invariant(&*self);
        }
        let ghost start = self@;
        let ghost full = line_cells(x0 as int, y0 as int, x1 as int, y1 as int, true);
        let ax = x0;
        let ay = y0;
        let mut x0 = x0;
        let mut y0 = y0;
        let dx: isize = if x1 >= x0 {
            x1 - x0
        } else {
            x0 - x1
        };
        let sx: isize = if x0 < x1 {
            1
        } else {
            -1
        };
        let dy: isize = -(if y1 >= y0 {
            y1 - y0
        } else {
            y0 - y1
        });
        let sy: isize = if y0 < y1 {
            1
        } else {
            -1
        };
        let mut err: isize = dx + dy;
        let n: isize = N as isize;
        let ghost mut visited: Seq<(int, int)> = Seq::empty();
        proof {
            lemma_line_start(ax as int, ay as int, x1 as int, y1 as int);
        }
        loop
            invariant_except_break
                visited + walk(
                    x0 as int,
                    y0 as int,
                    err as int,
                    x1 as int,
                    y1 as int,
                    dx as int,
                    -dy as int,
                    sx as int,
                    sy as int,
                    true,
                    (remaining(x0 as int, x1 as int, sx as int) + remaining(y0 as int, y1 as int, sy as int) + 1) as nat,
                ) == full,
            invariant
                self@.len() == SIZE,
                start.len() == SIZE,
                n == N,
                line_coord_ok(ax as int) && line_coord_ok(ay as int),
                line_coord_ok(x1 as int) && line_coord_ok(y1 as int),
                dx == iabs(x1 - ax),
                -dy == iabs(y1 - ay),
                sx == step_dir(ax as int, x1 as int),
                sy == step_dir(ay as int, y1 as int),
                walk_state(x0 as int, y0 as int, err as int, x1 as int, y1 as int, dx as int, -dy as int, sx as int, sy as int),
                full == line_cells(ax as int, ay as int, x1 as int, y1 as int, true),
                forall|a: usize, b: usize|
                    a < SIDE && b < SIDE ==> #[trigger] wall_at(self@, a, b) == (wall_at(start, a, b) || (a <= N && b
                        <= N && on_line(visited, a as int, b as int))),
            ensures
                visited == full,
                forall|a: usize, b: usize|
                    a < SIDE && b < SIDE ==> #[trigger] wall_at(self@, a, b) == (wall_at(start, a, b) || (a <= N && b
                        <= N && on_line(visited, a as int, b as int))),
            decreases remaining(x0 as int, x1 as int, sx as int) + remaining(y0 as int, y1 as int, sy as int),
        {
            let ghost fuel = (remaining(x0 as int, x1 as int, sx as int) + remaining(y0 as int, y1 as int, sy as int) + 1) as nat;
            let ghost w = walk(x0 as int, y0 as int, err as int, x1 as int, y1 as int, dx as int, -dy as int, sx as int, sy as int, true, fuel);
            let ghost c = (x0 as int, y0 as int);
            let ghost before = self@;
            if x0 >= 0 && x0 <= n && y0 >= 0 && y0 <= n {
                self.mark_wall(x0 as usize, y0 as usize);
            }
            proof {
                let nv = visited.push(c);
                assert forall|a: usize, b: usize| a < SIDE && b < SIDE implies #[trigger] wall_at(self@, a, b) == (wall_at(start, a, b)
                    || (a <= N && b <= N && on_line(nv, a as int, b as int))) by {
                    assert(wall_at(before, a, b) == (wall_at(start, a, b) || (a <= N && b <= N && on_line(visited, a as int, b as int))));
                    if on_line(visited, a as int, b as int) {
                        let k = choose|k: int| 0 <= k < visited.len() && #[trigger] visited[k] == (a as int, b as int);
                        assert(nv[k] == visited[k]);
                    }
                    if on_line(nv, a as int, b as int) && !on_line(visited, a as int, b as int) {
                        let k = choose|k: int| 0 <= k < nv.len() && #[trigger] nv[k] == (a as int, b as int);
                        if k < visited.len() {
                            assert(nv[k] == visited[k]);
                        }
                    }
                    if (a as int, b as int) == c {
                        assert(nv[visited.len() as int] == c);
                    }
                }
                visited = nv;
            }
            if x0 == x1 && y0 == y1 {
                proof {
                    assert(w =~= seq![c]);
                    assert(visited =~= visited.drop_last() + w);
                }
                break;
            }
            proof {
                lemma_walk_step(x0 as int, y0 as int, err as int, x1 as int, y1 as int, dx as int, -dy as int, sx as int, sy as int, true);
            }
            let e2 = 2 * err;
            if e2 >= dy {
                if x0 == x1 {
                    break;
                }
                err += dy;
                x0 += sx;
            }
            if e2 <= dx {
                if y0 == y1 {
                    break;
                }
                err += dx;
                y0 += sy;
            }
            proof {
                let nf = (remaining(x0 as int, x1 as int, sx as int) + remaining(y0 as int, y1 as int, sy as int) + 1) as nat;
                lemma_walk_fuel(x0 as int, y0 as int, err as int, x1 as int, y1 as int, dx as int, -dy as int, sx as int, sy as int, true, (fuel - 1) as nat, nf);
                let rest = walk(x0 as int, y0 as int, err as int, x1 as int, y1 as int, dx as int, -dy as int, sx as int, sy as int, true, nf);
                assert(w == seq![c] + rest);
                assert(visited + rest =~= visited.drop_last() + w);
            }
        }
    }

    /// Walls along the outline of the triangle with apex
    /// `(center_x, center_y - height / 2)` and base corners
    /// `(center_x ± half_base, center_y + height / 2)` (divisions rounded
    /// towards zero).
    pub fn triangle_outline(&mut self, center_x: isize, center_y: isize, height: isize, half_base: isize)
        requires
            line_coord_ok(center_x as int),
            line_coord_ok(center_x - half_base),
            line_coord_ok(center_x + half_base),
            line_coord_ok(center_y - trunc_div(height as int, 2)),
            line_coord_ok(center_y + trunc_div(height as int, 2)),
        ensures
            ({
                let top_y = center_y - trunc_div(height as int, 2);
                let base_y = center_y + trunc_div(height as int, 2);
                let left = center_x - half_base;
                let right = center_x + half_base;
                stamped(
                    old(self)@,
                    final(self)@,
                    |a: int, b: int|
                        on_line(line_cells(center_x as int, top_y, left, base_y, true), a, b) || on_line(
                            line_cells(left, base_y, right, base_y, true),
                            a,
                            b,
                        ) || on_line(line_cells(right, base_y, center_x as int, top_y, true), a, b),
                )
            }),
    {
        let top = (center_x, center_y - height / 2);
        let bottom_left = (center_x - half_base, center_y + height / 2);
        let bottom_right = (center_x + half_base, center_y + height / 2);
        let ghost s0 = self@;
        self.draw_line(top.0, top.1, bottom_left.0, bottom_left.1);
        let ghost s1 = self@;
        self.draw_line(bottom_left.0, bottom_left.1, bottom_right.0, bottom_right.1);
        let ghost s2 = self@;
        self.draw_line(bottom_right.0, bottom_right.1, top.0, top.1);
        proof {
            let f = |a: int, b: int| on_line(line_cells(top.0 as int, top.1 as int, bottom_left.0 as int, bottom_left.1 as int, true), a, b);
            let g = |a: int, b: int| on_line(line_cells(bottom_left.0 as int, bottom_left.1 as int, bottom_right.0 as int, bottom_right.1 as int, true), a, b);
            let k = |a: int, b: int| on_line(line_cells(bottom_right.0 as int, bottom_right.1 as int, top.0 as int, top.1 as int, true), a, b);
            lemma_stamped_then(s0, s1, s2, f, g);
            lemma_stamped_then(s0, s2, self@, |a: int, b: int| f(a, b) || g(a, b), k);
        }
    }
}

/// A shape that `place_object` can put in the grid, with its sizes in cells.
#[derive(PartialEq, Eq, Structural, Clone, Copy, Debug)]
pub enum Shape {
    /// A disc of the given squared radius.
    Circle { radius_sq: isize },
    /// A square of the given half side.
    Square { half_side: isize },
    /// A filled triangle of the given height and half base.
    Triangle { height: isize, half_base: isize },
    /// A rectangle of the given half width and half height.
    Rectangle { half_width: isize, half_height: isize },
}

/// The shape centred at `(x, y)` can be drawn without overflow.
pub open spec fn shape_fits(shape: Shape, x: int, y: int) -> bool {
    match shape {
        Shape::Circle { .. } => circle_span(x) + circle_span(y) <= isize::MAX,
        Shape::Square { half_side } => fits_isize(x - half_side) && fits_isize(x + half_side) && fits_isize(
            y - half_side,
        ) && fits_isize(y + half_side),
        Shape::Triangle { height, half_base } => (height <= 0 || fits_isize(y + height)) && forall|dy: int|
            0 <= dy < height ==> #[trigger] triangle_row_fits(dy, x, height as int, half_base as int),
        Shape::Rectangle { half_width, half_height } => fits_isize(x - half_width) && fits_isize(x + half_width)
            && fits_isize(y - half_height) && fits_isize(y + half_height),
    }
}

/// The cell `(a, b)` lies in the shape centred at `(x, y)`.
pub open spec fn shape_contains(shape: Shape, x: int, y: int, a: int, b: int) -> bool {
    match shape {
        Shape::Circle { radius_sq } => in_disc(a, b, x, y, radius_sq as int),
        Shape::Square { half_side } => in_box(a, b, x - half_side, x + half_side, y - half_side, y + half_side),
        Shape::Triangle { height, half_base } => in_triangle_rows(a, b, x, y, height as int, half_base as int, height as int),
        Shape::Rectangle { half_width, half_height } => in_box(
            a,
            b,
            x - half_width,
            x + half_width,
            y - half_height,
            y + half_height,
        ),
    }
}

/// A shape placed at `(x, y)` is centred there, with `x` the column and `y`
/// the row: a circle holds the cells within its squared radius of `(x, y)`;
/// a square or a rectangle spans its half width on each side of column `x`
/// and its half height on each side of row `y`; a triangle's rows lie `dy`
/// rows above its base row `y + height` (for `0 <= dy < height`), each
/// spanning `2 * dy * half_base / height` (rounded towards zero) on each
/// side of column `x`.
pub proof fn lemma_shape_centred(shape: Shape, x: int, y: int, a: int, b: int)
    ensures
        shape matches Shape::Circle { radius_sq } ==> (shape_contains(shape, x, y, a, b) <==> (a - x) * (a - x) + (b
            - y) * (b - y) <= radius_sq),
        shape matches Shape::Square { half_side } ==> (shape_contains(shape, x, y, a, b) <==> (x - half_side <= a
            <= x + half_side && y - half_side <= b <= y + half_side)),
        shape matches Shape::Rectangle { half_width, half_height } ==> (shape_contains(shape, x, y, a, b) <==> (x
            - half_width <= a <= x + half_width && y - half_height <= b <= y + half_height)),
        shape matches Shape::Triangle { height, half_base } ==> (shape_contains(shape, x, y, a, b) <==> (0 <= y
            + height - b < height && x - trunc_div(2 * (y + height - b) * half_base, height as int) <= a <= x
            + trunc_div(2 * (y + height - b) * half_base, height as int))),
{
}

/// The cells of column `i`, rows `j_lo .. j_end`, that are not walls, in
/// increasing row order.
pub open spec fn column_cells(s: Seq<bool>, i: usize, j_lo: usize, j_end: usize) -> Seq<usize>
    decreases j_end - j_lo,
{
    if j_end <= j_lo {
        Seq::empty()
    } else {
        let j = (j_end - 1) as usize;
        column_cells(s, i, j_lo, j) + if !wall_at(s, i, j) {
            seq![morton_code(i, j)]
        } else {
            Seq::empty()
        }
    }
}

/// The cells of the box of columns `i_lo .. i_end` and rows `j_lo .. j_end`
/// that are not walls, column by column.
pub open spec fn box_cells(s: Seq<bool>, i_lo: usize, i_end: usize, j_lo: usize, j_end: usize) -> Seq<usize>
    decreases i_end - i_lo,
{
    if i_end <= i_lo {
        Seq::empty()
    } else {
        box_cells(s, i_lo, (i_end - 1) as usize, j_lo, j_end) + column_cells(s, (i_end - 1) as usize, j_lo, j_end)
    }
}

/// Left wall column of the wind tunnel.
pub const TUNNEL_LEFT_WALL: usize = 1;

/// Right wall column of the wind tunnel: the left wall plus the box width,
/// `max(N / 30, 2)`.
pub const TUNNEL_RIGHT_WALL: usize = 18;

/// Squared radius of the obstacle of the Kármán vortex setup: the radius is
/// `N / 6 - 10.5 = 74.5`, whose square `5550.25` is truncated.
pub const KARMAN_RADIUS_SQ: isize = 5550;

/// Whether `v` is in `s`.
pub fn slice_contains(s: &[usize], v: usize) -> (r: bool)
    ensures
        r == s@.contains(v),
{
    let mut k: usize = 0;
    while k < s.len()
        invariant
            k <= s@.len(),
            forall|m: int| 0 <= m < k ==> s@[m] != v,
        decreases s@.len() - k,
    {
        if s[k] == v {
            return true;
        }
        k = k + 1;
    }
    false
}

impl Grid {
    /// Puts the shape centred at `(x, y)` in the grid.
    pub fn place_object(&mut self, x: isize, y: isize, shape: Shape)
        requires
            shape_fits(shape, x as int, y as int),
        ensures
            stamped(old(self)@, final(self)@, |a: int, b: int| shape_contains(shape, x as int, y as int, a, b)),
            0 <= x <= N && 0 <= y <= N && (shape matches Shape::Square { half_side } && half_side >= 0) ==> wall_at(
                final(self)@,
                x as usize,
                y as usize,
            ),
            0 <= x <= N && 0 <= y <= N && (shape matches Shape::Rectangle { half_width, half_height } && half_width
                >= 0 && half_height >= 0) ==> wall_at(final(self)@, x as usize, y as usize),
            0 <= x <= N && 0 <= y <= N && (shape matches Shape::Circle { radius_sq } && radius_sq >= 0) ==> wall_at(
                final(self)@,
                x as usize,
                y as usize,
            ),
    {
        let ghost start = self@;
        match shape {
            Shape::Circle { radius_sq } => self.circle(x, y, radius_sq),
            Shape::Square { half_side } => self.square(x, y, half_side),
            Shape::Triangle { height, half_base } => self.triangle(x, y, height, half_base),
            Shape::Rectangle { half_width, half_height } => self.rectangle(x, y, half_width, half_height),
        }
        proof {
            assert forall|i: usize, j: usize| i < SIDE && j < SIDE implies #[trigger] wall_at(self@, i, j) == (wall_at(start, i, j)
                || (i <= N && j <= N && (|a: int, b: int| shape_contains(shape, x as int, y as int, a, b))(i as int, j as int))) by {}
        }
    }

    /// The cells of the box of columns `i_lo ..= i_hi` and rows
    /// `j_lo ..= j_hi` that are not walls, column by column.
    pub fn open_cells(&self, i_lo: usize, i_hi: usize, j_lo: usize, j_hi: usize) -> (cells: Vec<usize>)
        requires
            i_hi < SIDE,
            j_hi < SIDE,
        ensures
            cells@ == box_cells(self@, i_lo, (i_hi + 1) as usize, j_lo, (j_hi + 1) as usize),
    {
        proof {
            use_type_invariant(self);
            lemma_grid_rect();
        }
        let mut cells: Vec<usize> = Vec::new();
        let mut i: usize = i_lo;
        if i_lo > i_hi {
            return cells;
        }
        while i <= i_hi
            invariant
                self.walls@.len() == SIZE,
                i_lo <= i <= i_hi + 1,
                i_hi < SIDE,
                j_hi < SIDE,
                cells@ == box_cells(self@, i_lo, i, j_lo, (j_hi + 1) as usize),
            decreases i_hi + 1 - i,
        {
            let ghost before = cells@;
            let mut j: usize = j_lo;
            if j_lo <= j_hi {
                while j <= j_hi
                    invariant
                        self.walls@.len() == SIZE,
                        i_lo <= i <= i_hi,
                        j_lo <= j <= j_hi + 1,
                        i_hi < SIDE,
                        j_hi < SIDE,
                        cells@ == before + column_cells(self@, i, j_lo, j),
                    decreases j_hi + 1 - j,
                {
                    let idx = self.to_index(i, j);
                    proof {
                        lemma_grid_rect();
                        assert(morton_code(i, j) < SIZE);
                    }
                    if !self.walls[idx] {
                        cells.push(idx);
                    }
                    proof {
                        assert(column_cells(self@, i, j_lo, (j + 1) as usize) == column_cells(self@, i, j_lo, j) + if !wall_at(self@, i, j) {
                            seq![morton_code(i, j)]
                        } else {
                            Seq::empty()
                        });
                        if !wall_at(self@, i, j) {
                            assert(cells@ =~= before + column_cells(self@, i, j_lo, (j + 1) as usize));
                        } else {
                            assert(cells@ =~= before + column_cells(self@, i, j_lo, (j + 1) as usize));
                        }
                    }
                    j = j + 1;
                }
            } else {
                proof {
                    assert(cells@ =~= before + column_cells(self@, i, j_lo, (j_hi + 1) as usize));
                }
            }
            proof {
                assert(box_cells(self@, i_lo, (i + 1) as usize, j_lo, (j_hi + 1) as usize) == box_cells(self@, i_lo, i, j_lo, (j_hi + 1) as usize)
                    + column_cells(self@, i, j_lo, (j_hi + 1) as usize));
            }
            i = i + 1;
        }
        cells
    }

    /// Builds the wind tunnel: walls along column `TUNNEL_LEFT_WALL` and,
    /// except at the rows listed in `hole_positions`, along column
    /// `TUNNEL_RIGHT_WALL`, on rows `1 ..= N`. Returns the cells of the box
    /// (columns `TUNNEL_LEFT_WALL + 2 ..= TUNNEL_RIGHT_WALL - 5`, that is
    /// `3 ..= 13`, rows `2 ..= N - 1`) that are not walls, where the
    /// flow is to be injected.
    pub fn initialize_wind_tunnel(&mut self, hole_positions: &[usize]) -> (fill: Vec<usize>)
        ensures
            stamped(
                old(self)@,
                final(self)@,
                |a: int, b: int|
                    1 <= b <= N && (a == TUNNEL_LEFT_WALL || (a == TUNNEL_RIGHT_WALL && !hole_positions@.contains(
                        b as usize,
                    ))),
            ),
            fill@ == box_cells(final(self)@, 3, 14, 2, N),
    {
        proof {
            use_type_invariant(&*self);
            lemma_grid_rect();
        }
        let ghost start = self@;
        let left_wall: usize = TUNNEL_LEFT_WALL;
        let box_width: usize = if N / 30 > 2 {
            N / 30
        } else {
            2
        };
        let right_wall = left_wall + box_width;
        let mut j: usize = 1;
        while j <= N
            invariant
                self@.len() == SIZE,
                1 <= j <= N + 1,
                right_wall == TUNNEL_RIGHT_WALL,
                left_wall == TUNNEL_LEFT_WALL,
                forall|a: usize, b: usize|
                    a < SIDE && b < SIDE ==> #[trigger] wall_at(self@, a, b) == (wall_at(start, a, b) || (a <= N && b
                        <= N && 1 <= b < j && (a == TUNNEL_LEFT_WALL || (a == TUNNEL_RIGHT_WALL
                        && !hole_positions@.contains(b))))),
            decreases N + 1 - j,
        {
            let idx_left = self.to_index(left_wall, j);
            proof {
                lemma_grid_rect();
                assert(morton_code(left_wall, j) < SIZE);
                assert(morton_code(right_wall, j) < SIZE);
            }
            if !self.walls[idx_left] {
                self.mark_wall(left_wall, j);
            }
            if !slice_contains(hole_positions, j) {
                let idx_right = self.to_index(right_wall, j);
                if !self.walls[idx_right] {
                    self.mark_wall(right_wall, j);
                }
            }
            j = j + 1;
        }
        self.open_cells(left_wall + 2, right_wall - 5, 2, N - 1)
    }

    /// Sets the grid up for Kármán vortices: a disc obstacle of squared
    /// radius `KARMAN_RADIUS_SQ` around `((N + 2) / 6, (N + 2) / 2)`. Returns
    /// the cells of columns `1 ..= 14`, rows `1 ..= N`, that are not walls,
    /// where the incoming flow is to be set.
    pub fn setup_karman_vortex(&mut self) -> (fill: Vec<usize>)
        ensures
            stamped(
                old(self)@,
                final(self)@,
                |a: int, b: int| in_disc(a, b, ((N + 2) / 6) as int, ((N + 2) / 2) as int, KARMAN_RADIUS_SQ as int),
            ),
            fill@ == box_cells(final(self)@, 1, 15, 1, 511),
    {
        let center = ((N + 2) / 6, (N + 2) / 2);
        self.circle(center.0 as isize, center.1 as isize, KARMAN_RADIUS_SQ);
        self.open_cells(1, 14, 1, N)
    }
}

} // verus!
