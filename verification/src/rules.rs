//! What a click does: one function of the grid for each rule of a button.

use crate::board::{is_neighbor, on_ray, ring_at, ring_dx, ring_dy, ring_index, scaled, Board};
use crate::button::{ButtonFunction, OneArrow, TwoArrow};
use crate::grid::Grid;
use vstd::prelude::*;

verus! {

/// The step from a cell to its neighbour `i`, numbered clockwise from the one
/// above.
fn neighbor_step(i: usize) -> (step: (i32, i32))
    requires
        i < 8,
    ensures
        step.0 == ring_dx(i as int),
        step.1 == ring_dy(i as int),
        ring_index(step.0 as int, step.1 as int) == i,
{
    match i {
        0 => (0, 1),
        1 => (1, 1),
        2 => (1, 0),
        3 => (1, -1),
        4 => (0, -1),
        5 => (-1, -1),
        6 => (-1, 0),
        _ => (-1, 1),
    }
}

/// The neighbour whose state moves to neighbour `i` in a turn: the nearest one
/// before `i`, in the sense of the turn, that the board has. `present` says
/// which neighbours of `(cx, cy)` the board has.
fn nearest_present(
    present: &Vec<bool>,
    i: usize,
    is_clockwise: bool,
    Ghost(board): Ghost<Board>,
    Ghost(cx): Ghost<int>,
    Ghost(cy): Ghost<int>,
) -> (j: usize)
    requires
        i < 8,
        present@.len() == 8,
        present@[i as int],
        forall|n: int| 0 <= n < 8 ==> #[trigger] present@[n] == board.ring_present(cx, cy, n),
    ensures
        j < 8,
        present@[j as int],
        j == board.ring_source(cx, cy, i as int, is_clockwise),
{
    let mut k: usize = 1;
    let mut j: usize = if is_clockwise {
        (i + 7) % 8
    } else {
        (i + 1) % 8
    };
    while k < 8 && !present[j]
        invariant
            0 <= i < 8,
            1 <= k <= 8,
            0 <= j < 8,
            j == ring_at(i as int, !is_clockwise, k as int) % 8,
            present@.len() == 8,
            present@[i as int],
            forall|n: int| 0 <= n < 8 ==> #[trigger] present@[n] == board.ring_present(cx, cy, n),
            board.ring_gap(cx, cy, i as int, !is_clockwise, 1) == board.ring_gap(
                cx,
                cy,
                i as int,
                !is_clockwise,
                k as int,
            ),
        decreases 8 - k,
    {
        proof {
            reveal_with_fuel(Board::ring_gap, 2);
            board.lemma_ring_present_periodic(
                cx,
                cy,
                ring_at(i as int, !is_clockwise, k as int),
                j as int,
            );
        }
        k += 1;
        j = if is_clockwise {
            (i + 8 - k) % 8
        } else {
            (i + k) % 8
        };
    }
    proof {
        reveal_with_fuel(Board::ring_gap, 2);
        board.lemma_ring_present_periodic(cx, cy, ring_at(i as int, !is_clockwise, k as int), j as int);
        assert(board.ring_gap(cx, cy, i as int, !is_clockwise, k as int) == k);
    }
    j
}

impl Grid {
    /// Applies a single arrow at `(x, y)`: toggles the ray that starts there
    /// and runs in direction `dir` to the edge of the grid.
    pub fn solve_onearrow(&mut self, x: i32, y: i32, dir: OneArrow)
        requires
            old(self).wf(),
            old(self)@.in_range(x as int, y as int),
        ensures
            final(self).wf(),
            final(self)@ == old(self)@.apply(ButtonFunction::OneArrow(dir), x as int, y as int),
    {
        let mut dx: i32 = 0;
        let mut dy: i32 = 0;
        match dir {
            OneArrow::Up => {
                dy = 1;
            },
            OneArrow::Down => {
                dy = -1;
            },
            OneArrow::Left => {
                dx = -1;
            },
            OneArrow::Right => {
                dx = 1;
            },
            OneArrow::LeftUp => {
                dx = -1;
                dy = 1;
            },
            OneArrow::RightUp => {
                dx = 1;
                dy = 1;
            },
            OneArrow::LeftDown => {
                dx = -1;
                dy = -1;
            },
            OneArrow::RightDown => {
                dx = 1;
                dy = -1;
            },
        }
        self.toggle_follow_direction(x, y, dx, dy);
        proof {
            let before = old(self)@;
            let goal = before.apply(ButtonFunction::OneArrow(dir), x as int, y as int);
            old(self).lemma_view_wf();
            assert forall|a: int, b: int| self@.in_range(a, b) implies self@.on(a, b) == goal.on(
                a,
                b,
            ) by {
                before.lemma_toggle_ray_on(x as int, y as int, dx as int, dy as int, a, b);
                before.lemma_apply_on(ButtonFunction::OneArrow(dir), x as int, y as int, a, b);
            }
            self.lemma_view_wf();
            self@.lemma_same_cells(goal);
        }
    }

    /// Applies a double arrow at `(x, y)`: toggles the cell and the two rays
    /// that leave it in opposite directions along `dir`.
    pub fn solve_twoarrow(&mut self, x: i32, y: i32, dir: TwoArrow)
        requires
            old(self).wf(),
            old(self)@.in_range(x as int, y as int),
        ensures
            final(self).wf(),
            final(self)@ == old(self)@.apply(ButtonFunction::TwoArrow(dir), x as int, y as int),
    {
        let mut dx: i32 = 0;
        let mut dy: i32 = 0;
        match dir {
            TwoArrow::BothHorizontal => {
                dx = 1;
            },
            TwoArrow::BothVertical => {
                dy = 1;
            },
            TwoArrow::LeftUpRightDown => {
                dx = -1;
                dy = 1;
            },
            TwoArrow::LeftDownRightUp => {
                dx = -1;
                dy = -1;
            },
        }
        proof {
            old(self).lemma_view_wf();
        }
        self.toggle_cell(x, y);
        let ghost first = self@;
        proof {
            self.lemma_view_wf();
        }
        self.toggle_follow_direction(x + dx, y + dy, dx, dy);
        let ghost second = self@;
        proof {
            self.lemma_view_wf();
        }
        self.toggle_follow_direction(x - dx, y - dy, -dx, -dy);
        proof {
            let before = old(self)@;
            let goal = before.apply(ButtonFunction::TwoArrow(dir), x as int, y as int);
            assert forall|a: int, b: int| self@.in_range(a, b) implies self@.on(a, b) == goal.on(
                a,
                b,
            ) by {
                first.lemma_toggle_ray_on(x + dx, y + dy, dx as int, dy as int, a, b);
                second.lemma_toggle_ray_on(x - dx, y - dy, -dx as int, -dy as int, a, b);
                before.lemma_apply_on(ButtonFunction::TwoArrow(dir), x as int, y as int, a, b);
            }
            self.lemma_view_wf();
            self@.lemma_same_cells(goal);
        }
    }

    /// Applies a quadruple arrow at `(x, y)`: toggles the cell, the rest of
    /// its row and the rest of its column.
    pub fn solve_fourarrow(&mut self, x: i32, y: i32)
        requires
            old(self).wf(),
            old(self)@.in_range(x as int, y as int),
        ensures
            final(self).wf(),
            final(self)@ == old(self)@.apply(ButtonFunction::FourArrow, x as int, y as int),
    {
        self.toggle_cell(x, y);
        let mut x2: i32 = 0;
        while x2 < self.width()
            invariant
                self.wf(),
                self@.width == old(self)@.width,
                self@.height == old(self)@.height,
                self@.funcs == old(self)@.funcs,
                self@.in_range(x as int, y as int),
                0 <= x2 <= self@.width,
                forall|a: int, b: int|
                    self@.in_range(a, b) ==> #[trigger] self@.on(a, b) == (old(self)@.on(a, b) != ((
                    a == x && b == y) || (b == y && a < x2))),
            decreases self@.width - x2,
        {
            if x != x2 {
                self.toggle_cell(x2, y);
            }
            x2 += 1;
        }
        let mut y2: i32 = 0;
        while y2 < self.height()
            invariant
                self.wf(),
                self@.width == old(self)@.width,
                self@.height == old(self)@.height,
                self@.funcs == old(self)@.funcs,
                self@.in_range(x as int, y as int),
                0 <= y2 <= self@.height,
                forall|a: int, b: int|
                    self@.in_range(a, b) ==> #[trigger] self@.on(a, b) == (old(self)@.on(a, b) != (b
                        == y || (a == x && b < y2))),
            decreases self@.height - y2,
        {
            if y != y2 {
                self.toggle_cell(x, y2);
            }
            y2 += 1;
        }
        proof {
            let before = old(self)@;
            let goal = before.apply(ButtonFunction::FourArrow, x as int, y as int);
            old(self).lemma_view_wf();
            assert forall|a: int, b: int| self@.in_range(a, b) implies self@.on(a, b) == goal.on(
                a,
                b,
            ) by {
                before.lemma_apply_on(ButtonFunction::FourArrow, x as int, y as int, a, b);
            }
            self.lemma_view_wf();
            self@.lemma_same_cells(goal);
        }
    }

    /// Applies the rule of the eight neighbours at `(x, y)`: toggles the cell
    /// and every cell around it that the grid has.
    pub fn solve_aroundeight(&mut self, x: i32, y: i32)
        requires
            old(self).wf(),
            old(self)@.in_range(x as int, y as int),
        ensures
            final(self).wf(),
            final(self)@ == old(self)@.apply(ButtonFunction::AroundEight, x as int, y as int),
    {
        proof {
            old(self).lemma_view_wf();
        }
        self.toggle_cell(x, y);
        let mut i: usize = 0;
        while i < 8
            invariant
                self.wf(),
                self@.width == old(self)@.width,
                self@.height == old(self)@.height,
                self@.funcs == old(self)@.funcs,
                self@.in_range(x as int, y as int),
                self@.width <= i32::MAX,
                self@.height <= i32::MAX,
                0 <= i <= 8,
                forall|a: int, b: int|
                    self@.in_range(a, b) ==> #[trigger] self@.on(a, b) == (old(self)@.on(a, b) != ((
                    a == x && b == y) || (is_neighbor(x as int, y as int, a, b) && ring_index(
                        a - x,
                        b - y,
                    ) < i))),
            decreases 8 - i,
        {
            let step = neighbor_step(i);
            let x2 = x + step.0;
            let y2 = y + step.1;
            if self.check_range(x2, y2) {
                self.toggle_cell(x2, y2);
            }
            i += 1;
        }
        proof {
            let before = old(self)@;
            let goal = before.apply(ButtonFunction::AroundEight, x as int, y as int);
            assert forall|a: int, b: int| self@.in_range(a, b) implies self@.on(a, b) == goal.on(
                a,
                b,
            ) by {
                before.lemma_apply_on(ButtonFunction::AroundEight, x as int, y as int, a, b);
            }
            self.lemma_view_wf();
            self@.lemma_same_cells(goal);
        }
    }

    /// Toggles the cells from `(start_x, start_y)` on, moving by `(dx, dy)`
    /// until the grid ends. The start is a cell of the grid or lies one step
    /// past one, so the walk never comes back into the grid.
    pub fn toggle_follow_direction(&mut self, start_x: i32, start_y: i32, dx: i32, dy: i32)
        requires
            old(self).wf(),
            -1 <= dx <= 1,
            -1 <= dy <= 1,
            dx != 0 || dy != 0,
            old(self)@.in_range(start_x as int, start_y as int) || old(self)@.in_range(
                start_x - dx,
                start_y - dy,
            ),
        ensures
            final(self).wf(),
            final(self)@ == old(self)@.toggle_ray(
                start_x as int,
                start_y as int,
                dx as int,
                dy as int,
            ),
    {
        let mut x2 = start_x;
        let mut y2 = start_y;
        let ghost mut k: int = 0;
        proof {
            old(self).lemma_view_wf();
        }
        while self.check_range(x2, y2)
            invariant
                self.wf(),
                self@.width == old(self)@.width,
                self@.height == old(self)@.height,
                self@.funcs == old(self)@.funcs,
                self@.width * self@.height <= i32::MAX,
                -1 <= dx <= 1,
                -1 <= dy <= 1,
                dx != 0 || dy != 0,
                k >= 0,
                x2 == start_x + scaled(dx as int, k),
                y2 == start_y + scaled(dy as int, k),
                self@.in_range(x2 - dx, y2 - dy) || (k == 0 && self@.in_range(x2 as int, y2 as int)),
                forall|x: int, y: int|
                    self@.in_range(x, y) ==> #[trigger] self@.on(x, y) == (old(self)@.on(x, y) != (
                    on_ray(start_x as int, start_y as int, dx as int, dy as int, x, y) && (if dx
                        != 0 {
                        scaled(dx as int, x - start_x)
                    } else {
                        scaled(dy as int, y - start_y)
                    }) < k)),
            decreases
                    (if dx == 1 {
                        self@.width - x2
                    } else if dx == -1 {
                        x2 + 1
                    } else if dy == 1 {
                        self@.height - y2
                    } else {
                        y2 + 1
                    }),
        {
            proof {
                self.lemma_view_wf();
            }
            self.toggle_cell(x2, y2);
            x2 += dx;
            y2 += dy;
            proof {
                k = k + 1;
            }
        }
        proof {
            let goal = old(self)@.toggle_ray(start_x as int, start_y as int, dx as int, dy as int);
            self.lemma_view_wf();
            assert forall|x: int, y: int| self@.in_range(x, y) implies self@.on(x, y) == goal.on(
                x,
                y,
            ) by {
                crate::board::lemma_cell_index(self@.width, self@.height, x, y);
            }
            self.lemma_view_wf();
            self@.lemma_same_cells(goal);
        }
    }

    /// Moves the states of row `y` by one place, to the right if `is_right`
    /// is set, else to the left; the state that leaves the row at one end
    /// enters it at the other.
    pub fn solve_shift(&mut self, y: i32, is_right: bool)
        requires
            old(self).wf(),
            0 <= y < old(self)@.height,
        ensures
            final(self).wf(),
            forall|x: int| #[trigger]
                old(self)@.apply(ButtonFunction::Shift(is_right), x, y as int) == final(self)@,
    {
        let width = self.width();
        let mut row: Vec<bool> = Vec::new();
        proof {
            old(self).lemma_view_wf();
        }
        let mut i: i32 = 0;
        while i < width
            invariant
                self.wf(),
                self@ == old(self)@,
                width == self@.width,
                0 <= y < self@.height,
                0 <= i <= width,
                row@.len() == i,
                forall|a: int| 0 <= a < i ==> row@[a] == old(self)@.on(a, y as int),
            decreases width - i,
        {
            row.push(self.get_cell(i, y));
            i += 1;
        }
        let mut i: i32 = 0;
        while i < width
            invariant
                self.wf(),
                self@.width == old(self)@.width,
                self@.height == old(self)@.height,
                self@.funcs == old(self)@.funcs,
                width == self@.width,
                0 <= y < self@.height,
                0 <= i <= width,
                row@.len() == width,
                forall|a: int| 0 <= a < width ==> row@[a] == old(self)@.on(a, y as int),
                forall|a: int, b: int|
                    self@.in_range(a, b) ==> #[trigger] self@.on(a, b) == (if b == y && a < i {
                        old(self)@.cell_after(ButtonFunction::Shift(is_right), 0, y as int, a, b)
                    } else {
                        old(self)@.on(a, b)
                    }),
            decreases width - i,
        {
            let source = if is_right {
                if i == 0 {
                    width - 1
                } else {
                    i - 1
                }
            } else {
                if i == width - 1 {
                    0
                } else {
                    i + 1
                }
            };
            self.put_cell(i, y, row[source as usize]);
            i += 1;
        }
        proof {
            let before = old(self)@;
            old(self).lemma_view_wf();
            self.lemma_view_wf();
            assert forall|x: int| #[trigger]
                before.apply(ButtonFunction::Shift(is_right), x, y as int) == self@ by {
                let goal = before.apply(ButtonFunction::Shift(is_right), x, y as int);
                assert forall|a: int, b: int| self@.in_range(a, b) implies self@.on(a, b)
                    == goal.on(a, b) by {
                    before.lemma_apply_on(ButtonFunction::Shift(is_right), x, y as int, a, b);
                }
                self@.lemma_same_cells(goal);
            }
        }
    }

    /// Applies a mirror at `(x, y)`: toggles the cell, then swaps the columns
    /// to its left and right if `is_horizontal` is set, else the rows above
    /// and below. Where the grid has only one of the two lines, that line is
    /// switched off.
    pub fn solve_symmetry(&mut self, x: i32, y: i32, is_horizontal: bool)
        requires
            old(self).wf(),
            old(self)@.in_range(x as int, y as int),
        ensures
            final(self).wf(),
            final(self)@ == old(self)@.apply(
                ButtonFunction::Symmetry(is_horizontal),
                x as int,
                y as int,
            ),
    {
        proof {
            old(self).lemma_view_wf();
        }
        self.toggle_cell(x, y);
        let ghost rule = ButtonFunction::Symmetry(is_horizontal);
        if is_horizontal {
            let left_x = x - 1;
            let right_x = x + 1;
            let exists_left = self.check_range(left_x, y);
            let exists_right = self.check_range(right_x, y);
            let mut y2: i32 = 0;
            while y2 < self.height()
                invariant
                    self.wf(),
                    self@.width == old(self)@.width,
                    self@.height == old(self)@.height,
                    self@.funcs == old(self)@.funcs,
                    self@.in_range(x as int, y as int),
                    left_x == x - 1,
                    right_x == x + 1,
                    exists_left == (left_x >= 0),
                    exists_right == (right_x < self@.width),
                    is_horizontal,
                    rule == ButtonFunction::Symmetry(is_horizontal),
                    0 <= y2 <= self@.height,
                    forall|a: int, b: int|
                        self@.in_range(a, b) ==> #[trigger] self@.on(a, b) == (if (a == x && b == y)
                            || b < y2 {
                            old(self)@.cell_after(rule, x as int, y as int, a, b)
                        } else {
                            old(self)@.on(a, b)
                        }),
                decreases self@.height - y2,
            {
                if exists_left && exists_right {
                    let left_state = self.get_cell(left_x, y2);
                    let right_state = self.get_cell(right_x, y2);
                    self.put_cell(right_x, y2, left_state);
                    self.put_cell(left_x, y2, right_state);
                } else if exists_left {
                    self.put_cell(left_x, y2, false);
                } else if exists_right {
                    self.put_cell(right_x, y2, false);
                }
                y2 += 1;
            }
        } else {
            let up_y = y + 1;
            let down_y = y - 1;
            let exists_up = self.check_range(x, up_y);
            let exists_down = self.check_range(x, down_y);
            let mut x2: i32 = 0;
            while x2 < self.width()
                invariant
                    self.wf(),
                    self@.width == old(self)@.width,
                    self@.height == old(self)@.height,
                    self@.funcs == old(self)@.funcs,
                    self@.in_range(x as int, y as int),
                    up_y == y + 1,
                    down_y == y - 1,
                    exists_up == (up_y < self@.height),
                    exists_down == (down_y >= 0),
                    !is_horizontal,
                    rule == ButtonFunction::Symmetry(is_horizontal),
                    0 <= x2 <= self@.width,
                    forall|a: int, b: int|
                        self@.in_range(a, b) ==> #[trigger] self@.on(a, b) == (if (a == x && b == y)
                            || a < x2 {
                            old(self)@.cell_after(rule, x as int, y as int, a, b)
                        } else {
                            old(self)@.on(a, b)
                        }),
                decreases self@.width - x2,
            {
                if exists_up && exists_down {
                    let up_state = self.get_cell(x2, up_y);
                    let down_state = self.get_cell(x2, down_y);
                    self.put_cell(x2, up_y, down_state);
                    self.put_cell(x2, down_y, up_state);
                } else if exists_up {
                    self.put_cell(x2, up_y, false);
                } else if exists_down {
                    self.put_cell(x2, down_y, false);
                }
                x2 += 1;
            }
        }
        proof {
            let before = old(self)@;
            let goal = before.apply(rule, x as int, y as int);
            assert forall|a: int, b: int| self@.in_range(a, b) implies self@.on(a, b) == goal.on(
                a,
                b,
            ) by {
                before.lemma_apply_on(rule, x as int, y as int, a, b);
            }
            self.lemma_view_wf();
            self@.lemma_same_cells(goal);
        }
    }

    /// Applies a rotation at `(x, y)`: toggles the cell, then moves the state
    /// of each neighbour that the grid has to the next such neighbour,
    /// clockwise if `is_clockwise` is set.
    pub fn solve_rotate(&mut self, x: i32, y: i32, is_clockwise: bool)
        requires
            old(self).wf(),
            old(self)@.in_range(x as int, y as int),
        ensures
            final(self).wf(),
            final(self)@ == old(self)@.apply(
                ButtonFunction::Rotate(is_clockwise),
                x as int,
                y as int,
            ),
    {
        proof {
            old(self).lemma_view_wf();
        }
        self.toggle_cell(x, y);
        let ghost rule = ButtonFunction::Rotate(is_clockwise);
        let ghost before = old(self)@;
        let ghost toggled = self@;
        let mut present: Vec<bool> = Vec::new();
        let mut states: Vec<bool> = Vec::new();
        let mut i: usize = 0;
        while i < 8
            invariant
                self.wf(),
                self@ == toggled,
                toggled.width == before.width,
                toggled.height == before.height,
                before.width <= i32::MAX,
                before.height <= i32::MAX,
                before.in_range(x as int, y as int),
                forall|a: int, b: int|
                    before.in_range(a, b) && !(a == x && b == y) ==> #[trigger] toggled.on(a, b)
                        == before.on(a, b),
                0 <= i <= 8,
                present@.len() == i,
                states@.len() == i,
                forall|j: int|
                    0 <= j < i ==> #[trigger] present@[j] == before.ring_present(
                        x as int,
                        y as int,
                        j,
                    ),
                forall|j: int|
                    0 <= j < i && present@[j] ==> #[trigger] states@[j] == before.on(
                        x + ring_dx(j),
                        y + ring_dy(j),
                    ),
            decreases 8 - i,
        {
            let step = neighbor_step(i);
            let x2 = x + step.0;
            let y2 = y + step.1;
            proof {
                reveal(Board::ring_present);
            }
            if self.check_range(x2, y2) {
                present.push(true);
                states.push(self.get_cell(x2, y2));
            } else {
                present.push(false);
                states.push(false);
            }
            i += 1;
        }
        let mut i: usize = 0;
        while i < 8
            invariant
                self.wf(),
                self@.width == before.width,
                self@.height == before.height,
                self@.funcs == before.funcs,
                before == old(self)@,
                before.wf(),
                before.width <= i32::MAX,
                before.height <= i32::MAX,
                before.in_range(x as int, y as int),
                rule == ButtonFunction::Rotate(is_clockwise),
                0 <= i <= 8,
                present@.len() == 8,
                states@.len() == 8,
                forall|j: int|
                    0 <= j < 8 ==> #[trigger] present@[j] == before.ring_present(
                        x as int,
                        y as int,
                        j,
                    ),
                forall|j: int|
                    0 <= j < 8 && present@[j] ==> #[trigger] states@[j] == before.on(
                        x + ring_dx(j),
                        y + ring_dy(j),
                    ),
                forall|a: int, b: int|
                    self@.in_range(a, b) ==> #[trigger] self@.on(a, b) == (if (a == x && b == y) || (
                    is_neighbor(x as int, y as int, a, b) && ring_index(a - x, b - y) < i) {
                        before.cell_after(rule, x as int, y as int, a, b)
                    } else {
                        before.on(a, b)
                    }),
            decreases 8 - i,
        {
            let step = neighbor_step(i);
            proof {
                reveal(Board::ring_present);
                assert(present@[i as int] == before.in_range(x + step.0, y + step.1));
            }
            if present[i] {
                let j = nearest_present(
                    &present,
                    i,
                    is_clockwise,
                    Ghost(before),
                    Ghost(x as int),
                    Ghost(y as int),
                );
                proof {
                    reveal(Board::ring_present);
                    assert(before.ring_present(x as int, y as int, j as int));
                    assert(before.in_range(x + ring_dx(j as int), y + ring_dy(j as int)));
                }
                self.put_cell(x + step.0, y + step.1, states[j]);
            }
            i += 1;
        }
        proof {
            let goal = before.apply(rule, x as int, y as int);
            assert forall|a: int, b: int| self@.in_range(a, b) implies self@.on(a, b) == goal.on(
                a,
                b,
            ) by {
                before.lemma_apply_on(rule, x as int, y as int, a, b);
            }
            self.lemma_view_wf();
            self@.lemma_same_cells(goal);
        }
    }

    /// Applies the rule of the button at `(x, y)` to the grid.
    pub fn click_button(&mut self, x: i32, y: i32)
        requires
            old(self).wf(),
            old(self)@.in_range(x as int, y as int),
        ensures
            final(self).wf(),
            final(self)@ == old(self)@.click(x as int, y as int),
    {
        let func = self.get_func(x, y);
        match func {
            ButtonFunction::Nothing => {
                proof {
                    let goal = self@.click(x as int, y as int);
                    self.lemma_view_wf();
                    assert forall|a: int, b: int| self@.in_range(a, b) implies self@.on(a, b)
                        == goal.on(a, b) by {
                        self@.lemma_apply_on(func, x as int, y as int, a, b);
                    }
                    self@.lemma_same_cells(goal);
                }
            },
            ButtonFunction::OneArrow(dir) => {
                self.solve_onearrow(x, y, dir);
            },
            ButtonFunction::TwoArrow(dir) => {
                self.solve_twoarrow(x, y, dir);
            },
            ButtonFunction::FourArrow => {
                self.solve_fourarrow(x, y);
            },
            ButtonFunction::Rotate(is_clockwise) => {
                self.solve_rotate(x, y, is_clockwise);
            },
            ButtonFunction::Shift(is_right) => {
                self.solve_shift(y, is_right);
                assert(self@ == old(self)@.apply(ButtonFunction::Shift(is_right), x as int, y as int));
            },
            ButtonFunction::Symmetry(is_horizontal) => {
                self.solve_symmetry(x, y, is_horizontal);
            },
            ButtonFunction::AroundEight => {
                self.solve_aroundeight(x, y);
            },
        }
    }

    /// Clicks the button at `(x, y)`.
    pub fn click(&mut self, x: i32, y: i32)
        requires
            old(self).wf(),
            old(self)@.in_range(x as int, y as int),
        ensures
            final(self).wf(),
            final(self)@ == old(self)@.click(x as int, y as int),
    {
        self.click_button(x, y)
    }
}

} // verus!
