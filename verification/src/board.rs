//! The mathematical model of a grid and of what a click does to it.
//!
//! A board has `width * height` cells. The rule of the cell in column `x` and
//! row `y` stands at index `y * width + x` of `funcs`; its state stands at
//! index `x * height + y` of `cells`. The two orders differ, as they do in the
//! level format that the boards are read from.

use crate::bit_array::{differing_upto, hamming_distance};
use crate::button::{is_arrow_function, ButtonFunction, Coordinate};
use vstd::arithmetic::div_mod::lemma_fundamental_div_mod_converse;
use vstd::prelude::*;

verus! {

/// `k` steps along a direction component `d` of -1, 0 or 1.
pub open spec fn scaled(d: int, k: int) -> int {
    if d > 0 {
        k
    } else if d < 0 {
        -k
    } else {
        0
    }
}

/// Whether `(x, y)` lies on the ray that starts at `(sx, sy)` and moves by
/// `(dx, dy)` at each step. The start is on the ray.
pub open spec fn on_ray(sx: int, sy: int, dx: int, dy: int, x: int, y: int) -> bool {
    let k = if dx != 0 {
        scaled(dx, x - sx)
    } else {
        scaled(dy, y - sy)
    };
    k >= 0 && x - sx == scaled(dx, k) && y - sy == scaled(dy, k)
}

/// The step in `x` to neighbour `i` of a cell. The neighbours are numbered
/// clockwise from the one above: N, NE, E, SE, S, SW, W, NW.
pub open spec fn ring_dx(i: int) -> int {
    if 1 <= i <= 3 {
        1
    } else if 5 <= i <= 7 {
        -1
    } else {
        0
    }
}

/// The step in `y` to neighbour `i` of a cell.
pub open spec fn ring_dy(i: int) -> int {
    if i == 7 || i == 0 || i == 1 {
        1
    } else if 3 <= i <= 5 {
        -1
    } else {
        0
    }
}

/// The number of the neighbour that lies `(dx, dy)` away.
pub open spec fn ring_index(dx: int, dy: int) -> int {
    if dx == 0 && dy == 1 {
        0
    } else if dx == 1 && dy == 1 {
        1
    } else if dx == 1 && dy == 0 {
        2
    } else if dx == 1 && dy == -1 {
        3
    } else if dx == 0 && dy == -1 {
        4
    } else if dx == -1 && dy == -1 {
        5
    } else if dx == -1 && dy == 0 {
        6
    } else {
        7
    }
}

/// The number of the neighbour that lies `m` places from neighbour `i`,
/// clockwise if `forward` is set. The result is not reduced modulo eight.
pub open spec fn ring_at(i: int, forward: bool, m: int) -> int {
    if forward {
        i + m
    } else {
        i - m
    }
}

/// Going `g` places from `i` and then `b` places back comes to the place that
/// lies `g - b` places from `i`.
pub proof fn lemma_ring_wrap(i: int, forward: bool, g: int, b: int)
    ensures
        ring_at(ring_at(i, forward, g) % 8, !forward, b) % 8 == ring_at(i, forward, g - b) % 8,
{
}

/// Whether `(x, y)` is one of the eight cells around `(cx, cy)`.
pub open spec fn is_neighbor(cx: int, cy: int, x: int, y: int) -> bool {
    -1 <= x - cx <= 1 && -1 <= y - cy <= 1 && !(x == cx && y == cy)
}

/// A grid of buttons as a mathematical value.
pub struct Board {
    pub width: int,
    pub height: int,
    pub funcs: Seq<ButtonFunction>,
    pub cells: Seq<bool>,
}

impl Board {
    /// Every cell has one rule and one state.
    pub open spec fn wf(self) -> bool {
        &&& 0 <= self.width
        &&& 0 <= self.height
        &&& self.funcs.len() == self.width * self.height
        &&& self.cells.len() == self.width * self.height
    }

    /// Whether `(x, y)` is a cell of the board.
    pub open spec fn in_range(self, x: int, y: int) -> bool {
        0 <= x < self.width && 0 <= y < self.height
    }

    /// The rule of the cell at `(x, y)`.
    pub open spec fn func_at(self, x: int, y: int) -> ButtonFunction {
        self.funcs[y * self.width + x]
    }

    /// Whether the cell at `(x, y)` is on.
    pub open spec fn on(self, x: int, y: int) -> bool {
        self.cells[x * self.height + y]
    }

    /// Whether every cell is off.
    pub open spec fn all_off(self) -> bool {
        forall|i: int| 0 <= i < self.cells.len() ==> !self.cells[i]
    }

    /// The board with the states `cells` in place of its own.
    pub open spec fn with_cells(self, cells: Seq<bool>) -> Board {
        Board { cells, ..self }
    }

    /// Whether neighbour `i` of `(cx, cy)` is a cell of the board. The number
    /// is taken modulo eight.
    #[verifier::opaque]
    pub open spec fn ring_present(self, cx: int, cy: int, i: int) -> bool {
        self.in_range(cx + ring_dx(i % 8), cy + ring_dy(i % 8))
    }

    /// The least `g` from `k` up for which neighbour `i + g` of `(cx, cy)`
    /// (or `i - g`, if `forward` is not set) is a cell of the board; eight if
    /// there is none below eight.
    #[verifier::opaque]
    pub open spec fn ring_gap(self, cx: int, cy: int, i: int, forward: bool, k: int) -> int
        decreases 8 - k,
    {
        if k >= 8 || self.ring_present(cx, cy, ring_at(i, forward, k)) {
            k
        } else {
            self.ring_gap(cx, cy, i, forward, k + 1)
        }
    }

    /// The neighbour of `(cx, cy)` whose state moves to neighbour `i` when the
    /// states around `(cx, cy)` turn by one place: the nearest one that the
    /// board has, counter-clockwise from `i` for a clockwise turn. Neighbours
    /// that the board lacks are skipped, so the states of those that it has
    /// move in a cycle.
    pub open spec fn ring_source(self, cx: int, cy: int, i: int, clockwise: bool) -> int {
        let g = self.ring_gap(cx, cy, i, !clockwise, 1);
        (if clockwise {
            i - g
        } else {
            i + g
        }) % 8
    }

    /// The state of the cell at `(x, y)` after rule `f` was applied at
    /// `(cx, cy)`.
    pub open spec fn cell_after(self, f: ButtonFunction, cx: int, cy: int, x: int, y: int) -> bool {
        let was = self.on(x, y);
        match f {
            ButtonFunction::Nothing => was,
            ButtonFunction::OneArrow(d) => was != on_ray(cx, cy, d.dx(), d.dy(), x, y),
            ButtonFunction::TwoArrow(a) => was != ((x == cx && y == cy) || on_ray(
                cx + a.dx(),
                cy + a.dy(),
                a.dx(),
                a.dy(),
                x,
                y,
            ) || on_ray(cx - a.dx(), cy - a.dy(), -a.dx(), -a.dy(), x, y)),
            ButtonFunction::FourArrow => was != (x == cx || y == cy),
            ButtonFunction::Rotate(clockwise) => if x == cx && y == cy {
                !was
            } else if is_neighbor(cx, cy, x, y) {
                let s = self.ring_source(cx, cy, ring_index(x - cx, y - cy), clockwise);
                self.on(cx + ring_dx(s), cy + ring_dy(s))
            } else {
                was
            },
            ButtonFunction::Shift(rightward) => if y != cy {
                was
            } else if rightward {
                self.on(
                    if x == 0 {
                        self.width - 1
                    } else {
                        x - 1
                    },
                    y,
                )
            } else {
                self.on(
                    if x == self.width - 1 {
                        0
                    } else {
                        x + 1
                    },
                    y,
                )
            },
            ButtonFunction::Symmetry(horizontal) => if x == cx && y == cy {
                !was
            } else if horizontal {
                if x == cx - 1 {
                    cx + 1 < self.width && self.on(cx + 1, y)
                } else if x == cx + 1 {
                    cx - 1 >= 0 && self.on(cx - 1, y)
                } else {
                    was
                }
            } else {
                if y == cy - 1 {
                    cy + 1 < self.height && self.on(x, cy + 1)
                } else if y == cy + 1 {
                    cy - 1 >= 0 && self.on(x, cy - 1)
                } else {
                    was
                }
            },
            ButtonFunction::AroundEight => was != (-1 <= x - cx <= 1 && -1 <= y - cy <= 1),
        }
    }

    /// The board with every cell toggled that lies on the ray from
    /// `(sx, sy)` in direction `(dx, dy)`.
    pub open spec fn toggle_ray(self, sx: int, sy: int, dx: int, dy: int) -> Board {
        self.with_cells(
            Seq::new(
                self.cells.len(),
                |i: int|
                    self.cells[i] != on_ray(sx, sy, dx, dy, i / self.height, i % self.height),
            ),
        )
    }

    /// The board after rule `f` was applied at `(cx, cy)`.
    pub open spec fn apply(self, f: ButtonFunction, cx: int, cy: int) -> Board {
        self.with_cells(
            Seq::new(
                self.cells.len(),
                |i: int| self.cell_after(f, cx, cy, i / self.height, i % self.height),
            ),
        )
    }

    /// The board after a click on the button at `(cx, cy)`.
    pub open spec fn click(self, cx: int, cy: int) -> Board {
        self.apply(self.func_at(cx, cy), cx, cy)
    }

    /// Whether a click at `c` counts as a move: `c` is a cell of the board and
    /// its rule is not `Nothing`.
    pub open spec fn clickable(self, c: Coordinate) -> bool {
        self.in_range(c.x as int, c.y as int) && self.func_at(c.x as int, c.y as int)
            != ButtonFunction::Nothing
    }

    /// The board after the clicks of `clicks`, first to last.
    pub open spec fn replay(self, clicks: Seq<Coordinate>) -> Board
        decreases clicks.len(),
    {
        if clicks.len() == 0 {
            self
        } else {
            self.replay(clicks.drop_last()).click(clicks.last().x as int, clicks.last().y as int)
        }
    }
}

/// The index of a cell among the states, and back.
pub proof fn lemma_cell_index(width: int, height: int, x: int, y: int)
    requires
        0 <= x < width,
        0 <= y < height,
    ensures
        0 <= x * height + y < width * height,
        (x * height + y) / height == x,
        (x * height + y) % height == y,
{
    assert(x * height + y < width * height) by (nonlinear_arith)
        requires
            0 <= x < width,
            0 <= y < height,
    {
        assert((x + 1) * height <= width * height);
    }
    assert(0 <= x * height) by (nonlinear_arith)
        requires
            0 <= x,
            0 <= height,
    ;
    lemma_fundamental_div_mod_converse(x * height + y, height, x, y);
}

/// The cell that an index among the states stands for.
pub proof fn lemma_index_cell(width: int, height: int, i: int)
    requires
        0 <= width,
        0 <= height,
        0 <= i < width * height,
    ensures
        0 <= i / height < width,
        0 <= i % height < height,
        (i / height) * height + i % height == i,
{
    assert(height > 0) by (nonlinear_arith)
        requires
            0 <= i < width * height,
            0 <= height,
    ;
    let q = i / height;
    let r = i % height;
    assert(i == height * q + r && 0 <= r < height) by {
        vstd::arithmetic::div_mod::lemma_fundamental_div_mod(i, height);
        vstd::arithmetic::div_mod::lemma_mod_pos_bound(i, height);
    }
    assert(0 <= q < width) by (nonlinear_arith)
        requires
            i == height * q + r,
            0 <= r < height,
            0 <= i < width * height,
    ;
    assert(q * height == height * q) by (nonlinear_arith);
}

impl Board {
    /// What `apply` says of one cell.
    pub proof fn lemma_apply_on(self, f: ButtonFunction, cx: int, cy: int, x: int, y: int)
        requires
            self.wf(),
            self.in_range(x, y),
        ensures
            self.apply(f, cx, cy).on(x, y) == self.cell_after(f, cx, cy, x, y),
            self.apply(f, cx, cy).wf(),
    {
        lemma_cell_index(self.width, self.height, x, y);
    }

    /// What `toggle_ray` says of one cell.
    pub proof fn lemma_toggle_ray_on(self, sx: int, sy: int, dx: int, dy: int, x: int, y: int)
        requires
            self.wf(),
            self.in_range(x, y),
        ensures
            self.toggle_ray(sx, sy, dx, dy).on(x, y) == (self.on(x, y) != on_ray(
                sx,
                sy,
                dx,
                dy,
                x,
                y,
            )),
            self.toggle_ray(sx, sy, dx, dy).wf(),
    {
        lemma_cell_index(self.width, self.height, x, y);
    }

    /// Two boards of one shape whose cells have the same states are equal.
    pub proof fn lemma_same_cells(self, other: Board)
        requires
            self.wf(),
            other.wf(),
            self.width == other.width,
            self.height == other.height,
            self.funcs == other.funcs,
            forall|x: int, y: int| self.in_range(x, y) ==> self.on(x, y) == other.on(x, y),
        ensures
            self == other,
    {
        assert forall|i: int| 0 <= i < self.cells.len() implies self.cells[i] == other.cells[i] by {
            lemma_index_cell(self.width, self.height, i);
            let x = i / self.height;
            let y = i % self.height;
            assert(self.in_range(x, y));
            assert(self.on(x, y) == other.on(x, y));
        }
        assert(self.cells =~= other.cells);
    }
}

impl Board {
    /// Applying an arrow rule twice at one cell gives the board back: each
    /// arrow toggles a set of cells that does not depend on their states.
    pub proof fn lemma_arrow_twice(self, f: ButtonFunction, cx: int, cy: int)
        requires
            self.wf(),
            is_arrow_function(f),
        ensures
            self.apply(f, cx, cy).apply(f, cx, cy) == self,
    {
        let once = self.apply(f, cx, cy);
        let twice = once.apply(f, cx, cy);
        assert forall|x: int, y: int| self.in_range(x, y) implies twice.on(x, y) == self.on(
            x,
            y,
        ) by {
            self.lemma_apply_on(f, cx, cy, x, y);
            once.lemma_apply_on(f, cx, cy, x, y);
        }
        twice.lemma_same_cells(self);
    }

    /// Two clicks in a row on a button with a single arrow give the board
    /// back.
    pub proof fn lemma_one_arrow_click_twice(self, cx: int, cy: int)
        requires
            self.wf(),
            self.in_range(cx, cy),
            self.func_at(cx, cy) is OneArrow,
        ensures
            self.click(cx, cy).click(cx, cy) == self,
    {
        self.lemma_arrow_twice(self.func_at(cx, cy), cx, cy);
    }

    /// Two clicks in a row on a button with any arrow rule give the board
    /// back.
    pub proof fn lemma_arrow_click_twice(self, cx: int, cy: int)
        requires
            self.wf(),
            is_arrow_function(self.func_at(cx, cy)),
        ensures
            self.click(cx, cy).click(cx, cy) == self,
    {
        self.lemma_arrow_twice(self.func_at(cx, cy), cx, cy);
    }
}

impl Board {
    /// Whether a neighbour is a cell of the board depends on its number modulo
    /// eight alone.
    pub proof fn lemma_ring_present_periodic(self, cx: int, cy: int, a: int, b: int)
        requires
            a % 8 == b % 8,
        ensures
            self.ring_present(cx, cy, a) == self.ring_present(cx, cy, b),
    {
        reveal(Board::ring_present);
    }

    /// The gap to the nearest neighbour that the board has is the least one:
    /// no neighbour nearer than the gap is a cell of the board.
    pub proof fn lemma_ring_gap(self, cx: int, cy: int, i: int, forward: bool, k: int)
        requires
            1 <= k <= 8,
        ensures
            k <= self.ring_gap(cx, cy, i, forward, k) <= 8,
            self.ring_gap(cx, cy, i, forward, k) < 8 ==> self.ring_present(
                cx,
                cy,
                ring_at(i, forward, self.ring_gap(cx, cy, i, forward, k)),
            ),
            forall|m: int|
                k <= m < self.ring_gap(cx, cy, i, forward, k) ==> !#[trigger] self.ring_present(
                    cx,
                    cy,
                    ring_at(i, forward, m),
                ),
        decreases 8 - k,
    {
        reveal_with_fuel(Board::ring_gap, 2);
        if k < 8 && !self.ring_present(cx, cy, ring_at(i, forward, k)) {
            self.lemma_ring_gap(cx, cy, i, forward, k + 1);
        }
    }

    /// The gaps of two boards of one size are the same.
    pub proof fn lemma_ring_gap_same_size(
        self,
        other: Board,
        cx: int,
        cy: int,
        i: int,
        forward: bool,
        k: int,
    )
        requires
            self.width == other.width,
            self.height == other.height,
        ensures
            self.ring_gap(cx, cy, i, forward, k) == other.ring_gap(cx, cy, i, forward, k),
        decreases 8 - k,
    {
        reveal_with_fuel(Board::ring_gap, 2);
        reveal(Board::ring_present);
        if k < 8 {
            self.lemma_ring_gap_same_size(other, cx, cy, i, forward, k + 1);
        }
    }

    /// Going from neighbour `i` to the nearest neighbour in one direction and
    /// from there to the nearest one in the other direction leads back to `i`.
    pub proof fn lemma_ring_there_and_back(self, cx: int, cy: int, i: int, forward: bool)
        requires
            0 <= i < 8,
            self.ring_present(cx, cy, i),
        ensures
            ({
                let g = self.ring_gap(cx, cy, i, forward, 1);
                let j = (if forward {
                    i + g
                } else {
                    i - g
                }) % 8;
                &&& self.ring_present(cx, cy, j)
                &&& self.ring_gap(cx, cy, j, !forward, 1) == g
                &&& (if forward {
                    j - g
                } else {
                    j + g
                }) % 8 == i
            }),
    {
        let g = self.ring_gap(cx, cy, i, forward, 1);
        let there = ring_at(i, forward, g);
        let j = there % 8;
        self.lemma_ring_gap(cx, cy, i, forward, 1);
        self.lemma_ring_present_periodic(cx, cy, there, j);
        if g == 8 {
            self.lemma_ring_present_periodic(cx, cy, there, i);
        }
        let back = self.ring_gap(cx, cy, j, !forward, 1);
        self.lemma_ring_gap(cx, cy, j, !forward, 1);
        let home = ring_at(j, !forward, g);
        lemma_ring_wrap(i, forward, g, g);
        self.lemma_ring_present_periodic(cx, cy, home, i);
        if back > g {
            assert(!self.ring_present(cx, cy, ring_at(j, !forward, g)));
        }
        if back < g {
            let stop = ring_at(j, !forward, back);
            let same = ring_at(i, forward, g - back);
            lemma_ring_wrap(i, forward, g, back);
            self.lemma_ring_present_periodic(cx, cy, stop, same);
            assert(!self.ring_present(cx, cy, ring_at(i, forward, g - back)));
        }
    }

    /// A turn of the neighbours of a cell in one sense, followed by a turn
    /// around the same cell in the other sense, gives the board back.
    pub proof fn lemma_rotate_back(self, cx: int, cy: int, clockwise: bool)
        requires
            self.wf(),
            self.in_range(cx, cy),
        ensures
            self.apply(ButtonFunction::Rotate(clockwise), cx, cy).apply(
                ButtonFunction::Rotate(!clockwise),
                cx,
                cy,
            ) == self,
    {
        let turn = ButtonFunction::Rotate(clockwise);
        let undo = ButtonFunction::Rotate(!clockwise);
        let once = self.apply(turn, cx, cy);
        let twice = once.apply(undo, cx, cy);
        assert forall|x: int, y: int| self.in_range(x, y) implies twice.on(x, y) == self.on(
            x,
            y,
        ) by {
            self.lemma_apply_on(turn, cx, cy, x, y);
            once.lemma_apply_on(undo, cx, cy, x, y);
            if is_neighbor(cx, cy, x, y) {
                reveal(Board::ring_present);
                let i = ring_index(x - cx, y - cy);
                assert(self.ring_present(cx, cy, i));
                // the undoing turn takes the state of neighbour `j`, which the
                // first turn took from neighbour `i`
                self.lemma_ring_there_and_back(cx, cy, i, clockwise);
                once.lemma_ring_gap_same_size(self, cx, cy, i, clockwise, 1);
                let j = once.ring_source(cx, cy, i, !clockwise);
                let jx = cx + ring_dx(j);
                let jy = cy + ring_dy(j);
                assert(self.in_range(jx, jy));
                assert(ring_index(jx - cx, jy - cy) == j);
                self.lemma_apply_on(turn, cx, cy, jx, jy);
                assert(self.ring_source(cx, cy, j, clockwise) == i);
            }
        }
        twice.lemma_same_cells(self);
    }

    /// A clockwise turn followed by a counter-clockwise turn around the same
    /// cell gives the board back, the states of the eight neighbours among
    /// them.
    pub proof fn lemma_rotate_clockwise_then_back(self, cx: int, cy: int)
        requires
            self.wf(),
            self.in_range(cx, cy),
        ensures
            self.apply(ButtonFunction::Rotate(true), cx, cy).apply(
                ButtonFunction::Rotate(false),
                cx,
                cy,
            ) == self,
    {
        self.lemma_rotate_back(cx, cy, true);
    }
}

/// How many of the first `n` cells, in the order of the states, lie in column
/// `cx` or in row `cy` of a board with `height` rows.
pub open spec fn cross_cells_upto(height: int, cx: int, cy: int, n: int) -> int {
    let column = n / height;
    let row = n % height;
    column + (if cx < column {
        height - 1
    } else {
        0
    }) + (if column == cx {
        row
    } else if row > cy {
        1
    } else {
        0
    })
}

impl Board {
    proof fn lemma_four_arrow_prefix(self, cx: int, cy: int, n: nat)
        requires
            self.wf(),
            self.in_range(cx, cy),
            n <= self.cells.len(),
        ensures
            differing_upto(self.cells, self.apply(ButtonFunction::FourArrow, cx, cy).cells, n)
                == cross_cells_upto(self.height, cx, cy, n as int),
        decreases n,
    {
        let h = self.height;
        if n == 0 {
            assert(0int / h == 0 && 0int % h == 0);
        } else {
            let i = n - 1;
            self.lemma_four_arrow_prefix(cx, cy, i as nat);
            lemma_index_cell(self.width, h, i);
            let q = i / h;
            let r = i % h;
            if r + 1 < h {
                lemma_fundamental_div_mod_converse(n as int, h, q, r + 1);
            } else {
                assert((q + 1) * h + 0 == q * h + h) by (nonlinear_arith);
                lemma_fundamental_div_mod_converse(n as int, h, q + 1, 0);
            }
            assert(self.apply(ButtonFunction::FourArrow, cx, cy).cells[i] == (self.cells[i] != (q
                == cx || r == cy)));
        }
    }

    /// The rule of the quadruple arrow changes exactly `width + height - 1`
    /// cells: the row and the column of the clicked cell, which share that
    /// one cell.
    pub proof fn lemma_four_arrow_count(self, cx: int, cy: int)
        requires
            self.wf(),
            self.in_range(cx, cy),
        ensures
            hamming_distance(self.cells, self.apply(ButtonFunction::FourArrow, cx, cy).cells)
                == self.width + self.height - 1,
    {
        let h = self.height;
        let n = self.cells.len();
        self.lemma_four_arrow_prefix(cx, cy, n);
        assert(self.width * h == self.width * h + 0);
        lemma_fundamental_div_mod_converse(n as int, h, self.width, 0);
    }
}

impl Board {
    /// Clicks change states only: a replay keeps the size and the rules of
    /// the board.
    pub proof fn lemma_replay_shape(self, clicks: Seq<Coordinate>)
        requires
            self.wf(),
        ensures
            self.replay(clicks).wf(),
            self.replay(clicks) == self.with_cells(self.replay(clicks).cells),
        decreases clicks.len(),
    {
        if clicks.len() > 0 {
            self.lemma_replay_shape(clicks.drop_last());
        }
    }

    /// A replay of clicks followed by one more click is the replay of all of
    /// them.
    pub proof fn lemma_replay_push(self, clicks: Seq<Coordinate>, c: Coordinate)
        ensures
            self.replay(clicks.push(c)) == self.replay(clicks).click(c.x as int, c.y as int),
    {
        assert(clicks.push(c).drop_last() =~= clicks);
    }
}

} // verus!
