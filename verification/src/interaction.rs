//! Drawing walls with the mouse: from the button state and the cell under
//! the pointer, each frame decides which cells become walls. Quick drags
//! are joined by a line so that no gap is left between two frames.
use vstd::prelude::*;
use crate::grid::N;
use crate::line::{bresenham_line, cells_of, line_cells, line_coord_ok};

verus! {

/// What the pointer did in the frames before.
pub struct Pointer {
    /// The left button was down at the last frame.
    pub mouse_down: bool,
    /// The cell that was last turned into a wall during the current drag.
    pub last_cell: Option<(usize, usize)>,
}

/// What a frame asks of the grid and of the clock.
pub struct PointerAction {
    /// The cells to turn into walls, in order.
    pub walls: Vec<(usize, usize)>,
    /// The time of the last drawing is to be set to now.
    pub restart_timer: bool,
}

/// `v` clamped to `[lo, hi]`.
pub open spec fn clamped(v: int, lo: int, hi: int) -> int {
    if v < lo {
        lo
    } else if v > hi {
        hi
    } else {
        v
    }
}

/// The cell lies in the simulated area of the square grid.
pub open spec fn in_area(c: (int, int)) -> bool {
    1 <= c.0 <= N && 1 <= c.1 <= N
}

/// The cell lies in a grid `w` by `h`.
pub open spec fn in_rect(c: (int, int), w: int, h: int) -> bool {
    0 <= c.0 < w && 0 <= c.1 < h
}

/// The cell is kept: in the simulated area of the square grid when
/// `clamp_area`, else in the grid `w` by `h`.
pub open spec fn cell_kept(c: (int, int), clamp_area: bool, w: int, h: int) -> bool {
    if clamp_area {
        in_area(c)
    } else {
        in_rect(c, w, h)
    }
}

/// The cells of `s` that are kept, in order.
pub open spec fn keep_cells(s: Seq<(int, int)>, clamp_area: bool, w: int, h: int) -> Seq<(int, int)>
    decreases s.len(),
{
    if s.len() == 0 {
        Seq::empty()
    } else {
        keep_cells(s.drop_last(), clamp_area, w, h) + if cell_kept(s.last(), clamp_area, w, h) {
            seq![s.last()]
        } else {
            Seq::empty()
        }
    }
}

/// The cell as a pair of integers.
pub open spec fn int_cell(c: (usize, usize)) -> (int, int) {
    (c.0 as int, c.1 as int)
}

/// The walls that a move of the pointer to `cur` draws: `cur` itself and,
/// when a quick drag comes from `last`, the cells of the line from `last` to
/// `cur` that are kept.
pub open spec fn drag_walls(
    last: Option<(usize, usize)>,
    cur: (usize, usize),
    quick: bool,
    clamp_area: bool,
    w: int,
    h: int,
) -> Seq<(int, int)> {
    seq![int_cell(cur)] + match last {
        Some(l) => if quick {
            keep_cells(line_cells(l.0 as int, l.1 as int, cur.0 as int, cur.1 as int, false), clamp_area, w, h)
        } else {
            Seq::empty()
        },
        None => Seq::empty(),
    }
}

/// The cells of `line` (pairs of `usize`) that are kept, in order.
fn keep_line(line: &Vec<(usize, usize)>, clamp_area: bool, w: usize, h: usize) -> (kept: Vec<(usize, usize)>)
    ensures
        cells_of(kept@) == keep_cells(cells_of(line@), clamp_area, w as int, h as int),
{
    let mut kept: Vec<(usize, usize)> = Vec::new();
    let mut k: usize = 0;
    proof {
        assert(cells_of(line@).take(0) =~= Seq::empty());
        assert(cells_of(kept@) =~= Seq::empty());
    }
    while k < line.len()
        invariant
            k <= line@.len(),
            cells_of(kept@) == keep_cells(cells_of(line@).take(k as int), clamp_area, w as int, h as int),
        decreases line@.len() - k,
    {
        let (x, y) = line[k];
        let ok = if clamp_area {
            x >= 1 && x <= N && y >= 1 && y <= N
        } else {
            x < w && y < h
        };
        let ghost before = kept@;
        if ok {
            kept.push((x, y));
        }
        proof {
            let t = cells_of(line@).take(k + 1);
            assert(t.drop_last() =~= cells_of(line@).take(k as int));
            assert(t.last() == (x as int, y as int));
            if ok {
                assert(cells_of(kept@) =~= cells_of(before).push((x as int, y as int)));
            } else {
                assert(cells_of(kept@) =~= cells_of(before));
            }
            assert(cells_of(kept@) =~= keep_cells(t, clamp_area, w as int, h as int));
        }
        k = k + 1;
    }
    proof {
        assert(cells_of(line@).take(line@.len() as int) =~= cells_of(line@));
    }
    kept
}

impl Pointer {
    /// The last cell drawn, if any, lies within the largest grids.
    pub open spec fn ok(&self) -> bool {
        self.last_cell matches Some(l) ==> l.0 <= 0x8000 && l.1 <= 0x8000
    }

    /// No button down, nothing drawn yet.
    pub fn new() -> (p: Self)
        ensures
            p.ok(),
            !p.mouse_down,
            p.last_cell is None,
    {
        Pointer { mouse_down: false, last_cell: None }
    }

    /// One frame on the square grid. `pressed` tells whether the left
    /// button is down; `cell` is the cell under the pointer, if the pointer
    /// is in the window, which is clamped to the simulated area; `quick`
    /// tells whether less than a second went by since the time of the last
    /// drawing. A button that goes down restarts that time; a pointer that
    /// moves to another cell while the button is down draws a wall there,
    /// and, on a quick drag, along the line from the last cell drawn.
    pub fn step_clamped(&mut self, pressed: bool, cell: Option<(usize, usize)>, quick: bool) -> (action: PointerAction)
        requires
            old(self).ok(),
        ensures
            final(self).ok(),
            ({
                let quick_now = quick || !old(self).mouse_down;
                if !pressed {
                    &&& !final(self).mouse_down
                    &&& final(self).last_cell == if old(self).mouse_down {
                        None
                    } else {
                        old(self).last_cell
                    }
                    &&& action.walls@.len() == 0
                    &&& !action.restart_timer
                } else {
                    &&& final(self).mouse_down
                    &&& match cell {
                        None => {
                            &&& final(self).last_cell == old(self).last_cell
                            &&& action.walls@.len() == 0
                            &&& action.restart_timer == !old(self).mouse_down
                        },
                        Some(raw) => {
                            let cur = (
                                clamped(raw.0 as int, 1, N as int) as usize,
                                clamped(raw.1 as int, 1, N as int) as usize,
                            );
                            if old(self).last_cell != Some(cur) {
                                &&& final(self).last_cell == Some(cur)
                                &&& cells_of(action.walls@) == drag_walls(old(self).last_cell, cur, quick_now, true, 0, 0)
                                &&& action.restart_timer
                            } else {
                                &&& final(self).last_cell == old(self).last_cell
                                &&& action.walls@.len() == 0
                                &&& action.restart_timer == !old(self).mouse_down
                            }
                        },
                    }
                }
            }),
    {
        let mut walls: Vec<(usize, usize)> = Vec::new();
        if !pressed {
            if self.mouse_down {
                self.mouse_down = false;
                self.last_cell = None;
            }
            return PointerAction { walls, restart_timer: false };
        }
        let mut restart_timer = false;
        let was_down = self.mouse_down;
        if !self.mouse_down {
            self.mouse_down = true;
            restart_timer = true;
        }
        let quick_now = quick || !was_down;
        if let Some((raw_x, raw_y)) = cell {
            let grid_x = if raw_x < 1 {
                1
            } else if raw_x > N {
                N
            } else {
                raw_x
            };
            let grid_y = if raw_y < 1 {
                1
            } else if raw_y > N {
                N
            } else {
                raw_y
            };
            let current = (grid_x, grid_y);
            let changed = match self.last_cell {
                None => true,
                Some(last) => !(last.0 == current.0 && last.1 == current.1),
            };
            if changed {
                walls.push(current);
                if let Some((last_x, last_y)) = self.last_cell {
                    if quick_now {
                        proof {
                            assert(0x8000 <= (isize::MAX as int) / 8);
                        }
                        let line = bresenham_line(last_x, last_y, grid_x, grid_y);
                        let kept = keep_line(&line, true, 0, 0);
                        let ghost w0 = walls@;
                        let mut k: usize = 0;
                        while k < kept.len()
                            invariant
                                k <= kept@.len(),
                                w0 == seq![current],
                                cells_of(walls@) == cells_of(w0) + cells_of(kept@).take(k as int),
                            decreases kept@.len() - k,
                        {
                            let ghost before = walls@;
                            walls.push(kept[k]);
                            proof {
                                assert(cells_of(kept@).take(k + 1) =~= cells_of(kept@).take(k as int).push(
                                    int_cell(kept@[k as int]),
                                ));
                                assert(cells_of(walls@) =~= cells_of(before).push(int_cell(kept@[k as int])));
                            }
                            k = k + 1;
                        }
                        proof {
                            assert(cells_of(kept@).take(kept@.len() as int) =~= cells_of(kept@));
                            assert(cells_of(w0) =~= seq![int_cell(current)]);
                        }
                    } else {
                        proof {
                            assert(cells_of(walls@) =~= seq![int_cell(current)] + Seq::empty());
                        }
                    }
                } else {
                    proof {
                        assert(cells_of(walls@) =~= seq![int_cell(current)] + Seq::empty());
                    }
                }
                self.last_cell = Some(current);
                restart_timer = true;
            }
        }
        PointerAction { walls, restart_timer }
    }
}

impl Pointer {
    /// One frame on a grid `w` by `h`, as `step_clamped`, except that the
    /// cell under the pointer is not clamped: a cell outside the grid draws
    /// nothing and is not remembered, and a quick drag keeps the cells of its
    /// line that lie in the grid.
    pub fn step_bounded(
        &mut self,
        pressed: bool,
        cell: Option<(usize, usize)>,
        quick: bool,
        w: usize,
        h: usize,
    ) -> (action: PointerAction)
        requires
            old(self).ok(),
            w <= 0x8000,
            h <= 0x8000,
        ensures
            final(self).ok(),
            ({
                let quick_now = quick || !old(self).mouse_down;
                if !pressed {
                    &&& !final(self).mouse_down
                    &&& final(self).last_cell == if old(self).mouse_down {
                        None
                    } else {
                        old(self).last_cell
                    }
                    &&& action.walls@.len() == 0
                    &&& !action.restart_timer
                } else {
                    &&& final(self).mouse_down
                    &&& match cell {
                        Some(cur) => if old(self).last_cell != Some(cur) && cur.0 < w && cur.1 < h {
                            &&& final(self).last_cell == Some(cur)
                            &&& cells_of(action.walls@) == drag_walls(
                                old(self).last_cell,
                                cur,
                                quick_now,
                                false,
                                w as int,
                                h as int,
                            )
                            &&& action.restart_timer
                        } else {
                            &&& final(self).last_cell == old(self).last_cell
                            &&& action.walls@.len() == 0
                            &&& action.restart_timer == !old(self).mouse_down
                        },
                        None => {
                            &&& final(self).last_cell == old(self).last_cell
                            &&& action.walls@.len() == 0
                            &&& action.restart_timer == !old(self).mouse_down
                        },
                    }
                }
            }),
    {
        let mut walls: Vec<(usize, usize)> = Vec::new();
        if !pressed {
            if self.mouse_down {
                self.mouse_down = false;
                self.last_cell = None;
            }
            return PointerAction { walls, restart_timer: false };
        }
        let mut restart_timer = false;
        let was_down = self.mouse_down;
        if !self.mouse_down {
            self.mouse_down = true;
            restart_timer = true;
        }
        let quick_now = quick || !was_down;
        if let Some((grid_x, grid_y)) = cell {
            let current = (grid_x, grid_y);
            let changed = match self.last_cell {
                None => true,
                Some(last) => !(last.0 == current.0 && last.1 == current.1),
            };
            if changed && grid_x < w && grid_y < h {
                walls.push(current);
                if let Some((last_x, last_y)) = self.last_cell {
                    if quick_now {
                        proof {
                            assert(0x8000 <= (isize::MAX as int) / 8);
                        }
                        let line = bresenham_line(last_x, last_y, grid_x, grid_y);
                        let kept = keep_line(&line, false, w, h);
                        let ghost w0 = walls@;
                        let mut k: usize = 0;
                        while k < kept.len()
                            invariant
                                k <= kept@.len(),
                                w0 == seq![current],
                                cells_of(walls@) == cells_of(w0) + cells_of(kept@).take(k as int),
                            decreases kept@.len() - k,
                        {
                            let ghost before = walls@;
                            walls.push(kept[k]);
                            proof {
                                assert(cells_of(kept@).take(k + 1) =~= cells_of(kept@).take(k as int).push(
                                    int_cell(kept@[k as int]),
                                ));
                                assert(cells_of(walls@) =~= cells_of(before).push(int_cell(kept@[k as int])));
                            }
                            k = k + 1;
                        }
                        proof {
                            assert(cells_of(kept@).take(kept@.len() as int) =~= cells_of(kept@));
                            assert(cells_of(w0) =~= seq![int_cell(current)]);
                        }
                    } else {
                        proof {
                            assert(cells_of(walls@) =~= seq![int_cell(current)] + Seq::empty());
                        }
                    }
                } else {
                    proof {
                        assert(cells_of(walls@) =~= seq![int_cell(current)] + Seq::empty());
                    }
                }
                self.last_cell = Some(current);
                restart_timer = true;
            }
        }
        PointerAction { walls, restart_timer }
    }
}

} // verus!
