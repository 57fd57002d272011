//! Digital straight lines: Bresenham's walk from one cell to another, one
//! cell at a time, always to one of the eight neighbours.
use vstd::prelude::*;

verus! {

/// Absolute value.
pub open spec fn iabs(a: int) -> int {
    if a < 0 {
        -a
    } else {
        a
    }
}

/// The unit step that leads from `a` towards `b` (`-1` when they are equal).
pub open spec fn step_dir(a: int, b: int) -> int {
    if a < b {
        1
    } else {
        -1
    }
}

/// How far `a` still is from `b`, walking in direction `s`.
pub open spec fn remaining(a: int, b: int, s: int) -> int {
    if s == 1 {
        b - a
    } else {
        a - b
    }
}

/// Whether the walk steps horizontally with error term `err`; with `loose`,
/// a tie takes the step.
pub open spec fn moves_x(err: int, dy: int, loose: bool) -> bool {
    if loose {
        2 * err >= -dy
    } else {
        2 * err > -dy
    }
}

/// Whether the walk steps vertically with error term `err`; with `loose`,
/// a tie takes the step.
pub open spec fn moves_y(err: int, dx: int, loose: bool) -> bool {
    if loose {
        2 * err <= dx
    } else {
        2 * err < dx
    }
}

/// The error term after one step of the walk.
pub open spec fn next_err(err: int, dx: int, dy: int, loose: bool) -> int {
    let e1 = if moves_x(err, dy, loose) {
        err - dy
    } else {
        err
    };
    if moves_y(err, dx, loose) {
        e1 + dx
    } else {
        e1
    }
}

/// The cells visited from `(x, y)` with error term `err`, up to the end
/// `(x1, y1)` included, the walk making at most `fuel` visits.
pub open spec fn walk(
    x: int,
    y: int,
    err: int,
    x1: int,
    y1: int,
    dx: int,
    dy: int,
    sx: int,
    sy: int,
    loose: bool,
    fuel: nat,
) -> Seq<(int, int)>
    decreases fuel,
{
    if fuel == 0 {
        Seq::empty()
    } else if x == x1 && y == y1 {
        seq![(x, y)]
    } else {
        let nx = if moves_x(err, dy, loose) {
            x + sx
        } else {
            x
        };
        let ny = if moves_y(err, dx, loose) {
            y + sy
        } else {
            y
        };
        seq![(x, y)] + walk(
            nx,
            ny,
            next_err(err, dx, dy, loose),
            x1,
            y1,
            dx,
            dy,
            sx,
            sy,
            loose,
            (fuel - 1) as nat,
        )
    }
}

/// The cells of the digital line from `(x0, y0)` to `(x1, y1)`, both ends
/// included, as Bresenham's walk visits them. With `loose`, a tie of the
/// error term takes the step; without, it does not.
pub open spec fn line_cells(x0: int, y0: int, x1: int, y1: int, loose: bool) -> Seq<(int, int)> {
    let dx = iabs(x1 - x0);
    let dy = iabs(y1 - y0);
    walk(
        x0,
        y0,
        dx - dy,
        x1,
        y1,
        dx,
        dy,
        step_dir(x0, x1),
        step_dir(y0, y1),
        loose,
        (dx + dy + 1) as nat,
    )
}

/// A reachable state of the walk: the position lies between the start and
/// the end, and the error term measures how far it is from the true line.
pub open spec fn walk_state(
    x: int,
    y: int,
    err: int,
    x1: int,
    y1: int,
    dx: int,
    dy: int,
    sx: int,
    sy: int,
) -> bool {
    let rx = remaining(x, x1, sx);
    let ry = remaining(y, y1, sy);
    &&& (sx == 1 || sx == -1)
    &&& (sy == 1 || sy == -1)
    &&& 0 <= rx <= dx
    &&& 0 <= ry <= dy
    &&& err == dx - dy + rx * dy - ry * dx
    &&& -3 * dy <= 2 * err <= 3 * dx
}

/// One step from a state that is not the end: the step moves towards the
/// end on at least one axis, never past it, and leads to a state.
pub proof fn lemma_walk_step(
    x: int,
    y: int,
    err: int,
    x1: int,
    y1: int,
    dx: int,
    dy: int,
    sx: int,
    sy: int,
    loose: bool,
)
    requires
        walk_state(x, y, err, x1, y1, dx, dy, sx, sy),
        !(x == x1 && y == y1),
    ensures
        moves_x(err, dy, loose) || moves_y(err, dx, loose),
        moves_x(err, dy, loose) ==> remaining(x, x1, sx) >= 1,
        moves_y(err, dx, loose) ==> remaining(y, y1, sy) >= 1,
        walk_state(
            if moves_x(err, dy, loose) {
                x + sx
            } else {
                x
            },
            if moves_y(err, dx, loose) {
                y + sy
            } else {
                y
            },
            next_err(err, dx, dy, loose),
            x1,
            y1,
            dx,
            dy,
            sx,
            sy,
        ),
{
    let rx = remaining(x, x1, sx);
    let ry = remaining(y, y1, sy);
    let mx = moves_x(err, dy, loose);
    let my = moves_y(err, dx, loose);
    if rx == 0 {
        assert(ry >= 1);
        assert(ry * dx >= dx) by (nonlinear_arith)
            requires
                ry >= 1,
                dx >= 0,
        ;
        assert(rx * dy == 0) by (nonlinear_arith)
            requires
                rx == 0,
        ;
        assert(!mx);
    }
    if ry == 0 {
        assert(rx >= 1);
        assert(rx * dy >= dy) by (nonlinear_arith)
            requires
                rx >= 1,
                dy >= 0,
        ;
        assert(ry * dx == 0) by (nonlinear_arith)
            requires
                ry == 0,
        ;
        assert(!my);
    }
    let nrx = if mx {
        rx - 1
    } else {
        rx
    };
    let nry = if my {
        ry - 1
    } else {
        ry
    };
    assert((rx - 1) * dy == rx * dy - dy) by (nonlinear_arith);
    assert((ry - 1) * dx == ry * dx - dx) by (nonlinear_arith);
    assert(next_err(err, dx, dy, loose) == dx - dy + nrx * dy - nry * dx);
}

/// Walks from a state with enough fuel do not depend on the fuel.
pub proof fn lemma_walk_fuel(
    x: int,
    y: int,
    err: int,
    x1: int,
    y1: int,
    dx: int,
    dy: int,
    sx: int,
    sy: int,
    loose: bool,
    f1: nat,
    f2: nat,
)
    requires
        walk_state(x, y, err, x1, y1, dx, dy, sx, sy),
        f1 >= remaining(x, x1, sx) + remaining(y, y1, sy) + 1,
        f2 >= remaining(x, x1, sx) + remaining(y, y1, sy) + 1,
    ensures
        walk(x, y, err, x1, y1, dx, dy, sx, sy, loose, f1) == walk(
            x,
            y,
            err,
            x1,
            y1,
            dx,
            dy,
            sx,
            sy,
            loose,
            f2,
        ),
    decreases f1,
{
    if !(x == x1 && y == y1) {
        lemma_walk_step(x, y, err, x1, y1, dx, dy, sx, sy, loose);
        let nx = if moves_x(err, dy, loose) {
            x + sx
        } else {
            x
        };
        let ny = if moves_y(err, dx, loose) {
            y + sy
        } else {
            y
        };
        lemma_walk_fuel(
            nx,
            ny,
            next_err(err, dx, dy, loose),
            x1,
            y1,
            dx,
            dy,
            sx,
            sy,
            loose,
            (f1 - 1) as nat,
            (f2 - 1) as nat,
        );
    }
}

/// One step moves each coordinate by nothing or by its unit step, and moves
/// at least one of them.
pub open spec fn king_step(p: (int, int), q: (int, int), sx: int, sy: int) -> bool {
    &&& (q.0 == p.0 || q.0 == p.0 + sx)
    &&& (q.1 == p.1 || q.1 == p.1 + sy)
    &&& q != p
}

/// The shape of a walk from a state with enough fuel: it starts at the
/// position, ends at the end, and each step is a king step towards the end.
pub proof fn lemma_walk_shape(
    x: int,
    y: int,
    err: int,
    x1: int,
    y1: int,
    dx: int,
    dy: int,
    sx: int,
    sy: int,
    loose: bool,
    fuel: nat,
)
    requires
        walk_state(x, y, err, x1, y1, dx, dy, sx, sy),
        fuel >= remaining(x, x1, sx) + remaining(y, y1, sy) + 1,
    ensures
        ({
            let w = walk(x, y, err, x1, y1, dx, dy, sx, sy, loose, fuel);
            &&& 1 <= w.len() <= remaining(x, x1, sx) + remaining(y, y1, sy) + 1
            &&& w[0] == (x, y)
            &&& w.last() == (x1, y1)
            &&& forall|i: int| 0 <= i < w.len() - 1 ==> king_step(#[trigger] w[i], w[i + 1], sx, sy)
        }),
    decreases fuel,
{
    let w = walk(x, y, err, x1, y1, dx, dy, sx, sy, loose, fuel);
    if !(x == x1 && y == y1) {
        lemma_walk_step(x, y, err, x1, y1, dx, dy, sx, sy, loose);
        let nx = if moves_x(err, dy, loose) {
            x + sx
        } else {
            x
        };
        let ny = if moves_y(err, dx, loose) {
            y + sy
        } else {
            y
        };
        let ne = next_err(err, dx, dy, loose);
        lemma_walk_shape(nx, ny, ne, x1, y1, dx, dy, sx, sy, loose, (fuel - 1) as nat);
        let rest = walk(nx, ny, ne, x1, y1, dx, dy, sx, sy, loose, (fuel - 1) as nat);
        assert(w == seq![(x, y)] + rest);
        assert forall|i: int| 0 <= i < w.len() - 1 implies king_step(#[trigger] w[i], w[i + 1], sx, sy) by {
            if i > 0 {
                assert(w[i] == rest[i - 1]);
                assert(w[i + 1] == rest[i]);
            }
        }
    }
}

/// The error term stays where a line that is at least as wide as it is high
/// always steps horizontally.
pub open spec fn wide_err(err: int, dx: int, dy: int, loose: bool) -> bool {
    if loose {
        -dy <= 2 * err <= 3 * dx - 2 * dy
    } else {
        -dy < 2 * err < 3 * dx - 2 * dy
    }
}

/// The error term stays where a line that is at least as high as it is wide
/// always steps vertically.
pub open spec fn tall_err(err: int, dx: int, dy: int, loose: bool) -> bool {
    if loose {
        2 * dx - 3 * dy <= 2 * err <= dx
    } else {
        2 * dx - 3 * dy < 2 * err < dx
    }
}

proof fn lemma_walk_len_wide(
    x: int,
    y: int,
    err: int,
    x1: int,
    y1: int,
    dx: int,
    dy: int,
    sx: int,
    sy: int,
    loose: bool,
    fuel: nat,
)
    requires
        walk_state(x, y, err, x1, y1, dx, dy, sx, sy),
        dy <= dx,
        wide_err(err, dx, dy, loose),
        fuel >= remaining(x, x1, sx) + remaining(y, y1, sy) + 1,
    ensures
        walk(x, y, err, x1, y1, dx, dy, sx, sy, loose, fuel).len() == remaining(x, x1, sx) + 1,
    decreases fuel,
{
    if !(x == x1 && y == y1) {
        lemma_walk_step(x, y, err, x1, y1, dx, dy, sx, sy, loose);
        let nx = if moves_x(err, dy, loose) {
            x + sx
        } else {
            x
        };
        let ny = if moves_y(err, dx, loose) {
            y + sy
        } else {
            y
        };
        let ne = next_err(err, dx, dy, loose);
        lemma_walk_len_wide(nx, ny, ne, x1, y1, dx, dy, sx, sy, loose, (fuel - 1) as nat);
    } else {
        lemma_walk_shape(x, y, err, x1, y1, dx, dy, sx, sy, loose, fuel);
    }
}

proof fn lemma_walk_len_tall(
    x: int,
    y: int,
    err: int,
    x1: int,
    y1: int,
    dx: int,
    dy: int,
    sx: int,
    sy: int,
    loose: bool,
    fuel: nat,
)
    requires
        walk_state(x, y, err, x1, y1, dx, dy, sx, sy),
        dx <= dy,
        tall_err(err, dx, dy, loose),
        fuel >= remaining(x, x1, sx) + remaining(y, y1, sy) + 1,
    ensures
        walk(x, y, err, x1, y1, dx, dy, sx, sy, loose, fuel).len() == remaining(y, y1, sy) + 1,
    decreases fuel,
{
    if !(x == x1 && y == y1) {
        lemma_walk_step(x, y, err, x1, y1, dx, dy, sx, sy, loose);
        let nx = if moves_x(err, dy, loose) {
            x + sx
        } else {
            x
        };
        let ny = if moves_y(err, dx, loose) {
            y + sy
        } else {
            y
        };
        let ne = next_err(err, dx, dy, loose);
        lemma_walk_len_tall(nx, ny, ne, x1, y1, dx, dy, sx, sy, loose, (fuel - 1) as nat);
    } else {
        lemma_walk_shape(x, y, err, x1, y1, dx, dy, sx, sy, loose, fuel);
    }
}

/// The state at the start of a line.
pub proof fn lemma_line_start(x0: int, y0: int, x1: int, y1: int)
    ensures
        walk_state(
            x0,
            y0,
            iabs(x1 - x0) - iabs(y1 - y0),
            x1,
            y1,
            iabs(x1 - x0),
            iabs(y1 - y0),
            step_dir(x0, x1),
            step_dir(y0, y1),
        ),
        remaining(x0, x1, step_dir(x0, x1)) == iabs(x1 - x0),
        remaining(y0, y1, step_dir(y0, y1)) == iabs(y1 - y0),
{
    let dx = iabs(x1 - x0);
    let dy = iabs(y1 - y0);
    assert(dx * dy == dy * dx) by (nonlinear_arith);
}

/// The line starts at its first end and stops at its second.
pub proof fn lemma_line_ends(x0: int, y0: int, x1: int, y1: int, loose: bool)
    ensures
        line_cells(x0, y0, x1, y1, loose).len() >= 1,
        line_cells(x0, y0, x1, y1, loose)[0] == (x0, y0),
        line_cells(x0, y0, x1, y1, loose).last() == (x1, y1),
{
    lemma_line_start(x0, y0, x1, y1);
    let dx = iabs(x1 - x0);
    let dy = iabs(y1 - y0);
    lemma_walk_shape(x0, y0, dx - dy, x1, y1, dx, dy, step_dir(x0, x1), step_dir(y0, y1), loose, (dx + dy + 1) as nat);
}

/// The line is connected: each cell is a neighbour (sides or corners) of
/// the one before it, one unit step towards the end on one or both axes.
pub proof fn lemma_line_connected(x0: int, y0: int, x1: int, y1: int, loose: bool)
    ensures
        forall|i: int|
            0 <= i < line_cells(x0, y0, x1, y1, loose).len() - 1 ==> king_step(
                #[trigger] line_cells(x0, y0, x1, y1, loose)[i],
                line_cells(x0, y0, x1, y1, loose)[i + 1],
                step_dir(x0, x1),
                step_dir(y0, y1),
            ),
{
    lemma_line_start(x0, y0, x1, y1);
    let dx = iabs(x1 - x0);
    let dy = iabs(y1 - y0);
    lemma_walk_shape(x0, y0, dx - dy, x1, y1, dx, dy, step_dir(x0, x1), step_dir(y0, y1), loose, (dx + dy + 1) as nat);
}

/// The line has one cell per unit of its longer side, plus one.
pub proof fn lemma_line_length(x0: int, y0: int, x1: int, y1: int, loose: bool)
    ensures
        line_cells(x0, y0, x1, y1, loose).len() == if iabs(x1 - x0) >= iabs(y1 - y0) {
            iabs(x1 - x0) + 1
        } else {
            iabs(y1 - y0) + 1
        },
{
    lemma_line_start(x0, y0, x1, y1);
    let dx = iabs(x1 - x0);
    let dy = iabs(y1 - y0);
    let sx = step_dir(x0, x1);
    let sy = step_dir(y0, y1);
    let f = (dx + dy + 1) as nat;
    if dx == 0 && dy == 0 {
        lemma_walk_shape(x0, y0, dx - dy, x1, y1, dx, dy, sx, sy, loose, f);
    } else if dx >= dy {
        lemma_walk_len_wide(x0, y0, dx - dy, x1, y1, dx, dy, sx, sy, loose, f);
    } else {
        lemma_walk_len_tall(x0, y0, dx - dy, x1, y1, dx, dy, sx, sy, loose, f);
    }
}

/// A coordinate small enough for the walk's arithmetic in `isize`.
pub open spec fn line_coord_ok(v: int) -> bool {
    -(isize::MAX as int) / 8 <= v <= (isize::MAX as int) / 8
}

/// The cells of a list of pairs of `usize`, as pairs of integers.
pub open spec fn cells_of(s: Seq<(usize, usize)>) -> Seq<(int, int)> {
    s.map_values(|p: (usize, usize)| (p.0 as int, p.1 as int))
}

/// The cells of the line from `(x0, y0)` to `(x1, y1)`, both ends included,
/// by Bresenham's algorithm (a tie of the error term does not step).
pub fn bresenham_line(x0: usize, y0: usize, x1: usize, y1: usize) -> (points: Vec<(usize, usize)>)
    requires
        line_coord_ok(x0 as int),
        line_coord_ok(y0 as int),
        line_coord_ok(x1 as int),
        line_coord_ok(y1 as int),
    ensures
        cells_of(points@) == line_cells(x0 as int, y0 as int, x1 as int, y1 as int, false),
{
    let mut points: Vec<(usize, usize)> = Vec::new();
    let ax: isize = x0 as isize;
    let ay: isize = y0 as isize;
    let bx: isize = x1 as isize;
    let by: isize = y1 as isize;
    let dx: isize = if bx >= ax {
        bx - ax
    } else {
        ax - bx
    };
    let dy: isize = if by >= ay {
        by - ay
    } else {
        ay - by
    };
    let sx: isize = if x0 < x1 {
        1
    } else {
        -1
    };
    let sy: isize = if y0 < y1 {
        1
    } else {
        -1
    };
    let mut err: isize = dx - dy;
    let mut x: isize = ax;
    let mut y: isize = ay;
    let ghost full = line_cells(x0 as int, y0 as int, x1 as int, y1 as int, false);
    proof {
        lemma_line_start(x0 as int, y0 as int, x1 as int, y1 as int);
        assert(cells_of(points@) =~= Seq::empty());
    }
    loop
        invariant_except_break
            cells_of(points@) + walk(
                x as int,
                y as int,
                err as int,
                x1 as int,
                y1 as int,
                dx as int,
                dy as int,
                sx as int,
                sy as int,
                false,
                (remaining(x as int, x1 as int, sx as int) + remaining(y as int, y1 as int, sy as int) + 1) as nat,
            ) == full,
        invariant
            ax == x0 && ay == y0 && bx == x1 && by == y1,
            line_coord_ok(x0 as int) && line_coord_ok(y0 as int),
            line_coord_ok(x1 as int) && line_coord_ok(y1 as int),
            dx == iabs(x1 - x0),
            dy == iabs(y1 - y0),
            sx == step_dir(x0 as int, x1 as int),
            sy == step_dir(y0 as int, y1 as int),
            walk_state(x as int, y as int, err as int, x1 as int, y1 as int, dx as int, dy as int, sx as int, sy as int),
            full == line_cells(x0 as int, y0 as int, x1 as int, y1 as int, false),
        ensures
            cells_of(points@) == full,
        decreases remaining(x as int, x1 as int, sx as int) + remaining(y as int, y1 as int, sy as int),
    {
        let ghost fuel = (remaining(x as int, x1 as int, sx as int) + remaining(y as int, y1 as int, sy as int) + 1) as nat;
        let ghost before = cells_of(points@);
        let ghost w = walk(x as int, y as int, err as int, x1 as int, y1 as int, dx as int, dy as int, sx as int, sy as int, false, fuel);
        points.push((x as usize, y as usize));
        proof {
            assert(cells_of(points@) =~= before.push((x as int, y as int)));
        }
        if x == bx && y == by {
            proof {
                assert(w =~= seq![(x as int, y as int)]);
                assert(cells_of(points@) =~= before + w);
            }
            break;
        }
        proof {
            lemma_walk_step(x as int, y as int, err as int, x1 as int, y1 as int, dx as int, dy as int, sx as int, sy as int, false);
        }
        let e2 = 2 * err;
        let ghost old_err = err;
        let ghost ox = x;
        let ghost oy = y;
        if e2 > -dy {
            err -= dy;
            x += sx;
        }
        if e2 < dx {
            err += dx;
            y += sy;
        }
        proof {
            assert(err as int == next_err(old_err as int, dx as int, dy as int, false));
            let nf = (remaining(x as int, x1 as int, sx as int) + remaining(y as int, y1 as int, sy as int) + 1) as nat;
            lemma_walk_fuel(x as int, y as int, err as int, x1 as int, y1 as int, dx as int, dy as int, sx as int, sy as int, false, (fuel - 1) as nat, nf);
            let rest = walk(x as int, y as int, err as int, x1 as int, y1 as int, dx as int, dy as int, sx as int, sy as int, false, nf);
            assert(w == seq![(ox as int, oy as int)] + rest);
            assert(cells_of(points@) + rest =~= before + w);
        }
    }
    points
}

/// The bound below which a coordinate lies in the square window of side
/// `width`. The drawing compares with `width` cast to `isize`; a width beyond
/// `isize::MAX` turns negative in that cast, and then no cell is in the window.
pub open spec fn window_side(width: usize) -> int {
    if width <= isize::MAX {
        width as int
    } else {
        0
    }
}

/// The cell lies in the square window `[0, side) x [0, side)`.
pub open spec fn in_window(c: (int, int), side: int) -> bool {
    0 <= c.0 < side && 0 <= c.1 < side
}

/// The index of the cell in a row-major buffer of rows of `width` values.
pub open spec fn pixel_index(c: (int, int), width: int) -> int {
    c.1 * width + c.0
}

/// The buffer after `color` is written at each cell of `cells` that lies in
/// the window, in order.
pub open spec fn paint(buf: Seq<u32>, cells: Seq<(int, int)>, width: usize, color: u32) -> Seq<u32>
    decreases cells.len(),
{
    if cells.len() == 0 {
        buf
    } else {
        let before = paint(buf, cells.drop_last(), width, color);
        let c = cells.last();
        if in_window(c, window_side(width)) {
            before.update(pixel_index(c, width as int), color)
        } else {
            before
        }
    }
}

/// Some cell of `cells` in the window lands on index `k`.
pub open spec fn painted_at(cells: Seq<(int, int)>, width: usize, k: int) -> bool {
    exists|i: int|
        0 <= i < cells.len() && in_window(#[trigger] cells[i], window_side(width)) && pixel_index(
            cells[i],
            width as int,
        ) == k
}

/// Every cell of `cells` in the window lands inside a buffer of `len` values.
pub open spec fn cells_fit(cells: Seq<(int, int)>, width: usize, len: int) -> bool {
    forall|i: int|
        0 <= i < cells.len() && in_window(#[trigger] cells[i], window_side(width)) ==> 0
            <= pixel_index(cells[i], width as int) < len
}

/// Painting writes `color` exactly at the indices that some cell in the
/// window lands on, and leaves every other value as it was.
pub proof fn lemma_paint_pointwise(buf: Seq<u32>, cells: Seq<(int, int)>, width: usize, color: u32)
    requires
        cells_fit(cells, width, buf.len() as int),
    ensures
        paint(buf, cells, width, color).len() == buf.len(),
        forall|k: int|
            0 <= k < buf.len() ==> #[trigger] paint(buf, cells, width, color)[k] == if painted_at(
                cells,
                width,
                k,
            ) {
                color
            } else {
                buf[k]
            },
    decreases cells.len(),
{
    if cells.len() > 0 {
        let init = cells.drop_last();
        assert forall|i: int| 0 <= i < init.len() && in_window(#[trigger] init[i], window_side(width)) implies 0
            <= pixel_index(init[i], width as int) < buf.len() by {
            assert(init[i] == cells[i]);
        }
        lemma_paint_pointwise(buf, init, width, color);
        let c = cells.last();
        assert forall|k: int| 0 <= k < buf.len() implies #[trigger] paint(buf, cells, width, color)[k] == if painted_at(
            cells,
            width,
            k,
        ) {
            color
        } else {
            buf[k]
        } by {
            if painted_at(init, width, k) {
                let i = choose|i: int|
                    0 <= i < init.len() && in_window(#[trigger] init[i], window_side(width))
                        && pixel_index(init[i], width as int) == k;
                assert(cells[i] == init[i]);
            }
            if painted_at(cells, width, k) && !painted_at(init, width, k) {
                let i = choose|i: int|
                    0 <= i < cells.len() && in_window(#[trigger] cells[i], window_side(width))
                        && pixel_index(cells[i], width as int) == k;
                if i < init.len() {
                    assert(init[i] == cells[i]);
                }
            }
            if in_window(c, window_side(width)) && pixel_index(c, width as int) == k {
                assert(cells[cells.len() - 1] == c);
            }
        }
    }
}

/// Draws the line from `(x0, y0)` to `(x1, y1)` into a row-major buffer of
/// rows of `width` pixels, writing `color` at each cell of the line that lies
/// in the square window of side `width`.
pub fn draw_line_with_color(
    buffer: &mut [u32],
    width: usize,
    x0: usize,
    y0: usize,
    x1: usize,
    y1: usize,
    color: u32,
)
    requires
        line_coord_ok(x0 as int),
        line_coord_ok(y0 as int),
        line_coord_ok(x1 as int),
        line_coord_ok(y1 as int),
        cells_fit(line_cells(x0 as int, y0 as int, x1 as int, y1 as int, true), width, old(buffer)@.len() as int),
    ensures
        final(buffer)@.len() == old(buffer)@.len(),
        forall|k: int|
            0 <= k < old(buffer)@.len() ==> #[trigger] final(buffer)@[k] == if painted_at(
                line_cells(x0 as int, y0 as int, x1 as int, y1 as int, true),
                width,
                k,
            ) {
                color
            } else {
                old(buffer)@[k]
            },
{
    let ghost full = line_cells(x0 as int, y0 as int, x1 as int, y1 as int, true);
    let ghost start = buffer@;
    let ax: isize = x0 as isize;
    let ay: isize = y0 as isize;
    let bx: isize = x1 as isize;
    let by: isize = y1 as isize;
    let dx: isize = if bx >= ax {
        bx - ax
    } else {
        ax - bx
    };
    let dy: isize = -(if by >= ay {
        by - ay
    } else {
        ay - by
    });
    let mut err: isize = dx + dy;
    let mut x: isize = ax;
    let mut y: isize = ay;
    let sx: isize = if x0 < x1 {
        1
    } else {
        -1
    };
    let sy: isize = if y0 < y1 {
        1
    } else {
        -1
    };
    let side: isize = if width <= isize::MAX as usize {
        width as isize
    } else {
        0
    };
    let ghost mut visited: Seq<(int, int)> = Seq::empty();
    proof {
        lemma_line_start(x0 as int, y0 as int, x1 as int, y1 as int);
        lemma_paint_pointwise(start, full, width, color);
    }
    loop
        invariant_except_break
            visited + walk(
                x as int,
                y as int,
                err as int,
                x1 as int,
                y1 as int,
                dx as int,
                -dy as int,
                sx as int,
                sy as int,
                true,
                (remaining(x as int, x1 as int, sx as int) + remaining(y as int, y1 as int, sy as int) + 1) as nat,
            ) == full,
        invariant
            ax == x0 && ay == y0 && bx == x1 && by == y1,
            line_coord_ok(x0 as int) && line_coord_ok(y0 as int),
            line_coord_ok(x1 as int) && line_coord_ok(y1 as int),
            dx == iabs(x1 - x0),
            -dy == iabs(y1 - y0),
            sx == step_dir(x0 as int, x1 as int),
            sy == step_dir(y0 as int, y1 as int),
            side == window_side(width),
            walk_state(x as int, y as int, err as int, x1 as int, y1 as int, dx as int, -dy as int, sx as int, sy as int),
            full == line_cells(x0 as int, y0 as int, x1 as int, y1 as int, true),
            cells_fit(full, width, start.len() as int),
            start == old(buffer)@,
            buffer@ == paint(start, visited, width, color),
            buffer@.len() == start.len(),
        ensures
            visited == full,
            buffer@ == paint(start, visited, width, color),
        decreases remaining(x as int, x1 as int, sx as int) + remaining(y as int, y1 as int, sy as int),
    {
        let ghost fuel = (remaining(x as int, x1 as int, sx as int) + remaining(y as int, y1 as int, sy as int) + 1) as nat;
        let ghost w = walk(x as int, y as int, err as int, x1 as int, y1 as int, dx as int, -dy as int, sx as int, sy as int, true, fuel);
        let ghost c = (x as int, y as int);
        proof {
            assert(w[0] == c);
            assert(full[visited.len() as int] == c);
        }
        if x >= 0 && x < side && y >= 0 && y < side {
            proof {
                assert(in_window(full[visited.len() as int], window_side(width)));
                assert(0 <= pixel_index(full[visited.len() as int], width as int) < start.len());
                assert(((y as usize) as int) * (width as int) + ((x as usize) as int) < start.len());
            }
            let len = buffer.len();
            assert(len == start.len());
            let idx = (y as usize) * width + (x as usize);
            buffer[idx] = color;
        }
        proof {
            let nv = visited.push(c);
            assert(nv.drop_last() =~= visited);
            visited = nv;
        }
        if x == bx && y == by {
            proof {
                assert(w =~= seq![c]);
            }
            break;
        }
        proof {
            lemma_walk_step(x as int, y as int, err as int, x1 as int, y1 as int, dx as int, -dy as int, sx as int, sy as int, true);
        }
        let e2 = 2 * err;
        if e2 >= dy {
            err += dy;
            x += sx;
        }
        if e2 <= dx {
            err += dx;
            y += sy;
        }
        proof {
            let nf = (remaining(x as int, x1 as int, sx as int) + remaining(y as int, y1 as int, sy as int) + 1) as nat;
            lemma_walk_fuel(x as int, y as int, err as int, x1 as int, y1 as int, dx as int, -dy as int, sx as int, sy as int, true, (fuel - 1) as nat, nf);
            let rest = walk(x as int, y as int, err as int, x1 as int, y1 as int, dx as int, -dy as int, sx as int, sy as int, true, nf);
            assert(w == seq![c] + rest);
            assert(visited + rest =~= visited.drop_last() + w);
        }
    }
}

} // verus!
