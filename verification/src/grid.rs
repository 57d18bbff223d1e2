//! The grid that clicks are simulated on.

use crate::bit_array::BitArray;
use crate::board::{lemma_cell_index, lemma_index_cell, Board};
use crate::button::{convert_subtype_to_func, function_of_subtype, Button, ButtonFunction, Coordinate};
use crate::level::ToggleLevel;
use vstd::prelude::*;

verus! {

/// A rectangle of buttons, stored row by row.
#[derive(Debug)]
pub struct Grid {
    buttons: Vec<Button>,
    width: i32,
    height: i32,
}

impl View for Grid {
    type V = Board;

    /// The grid as a board.
    closed spec fn view(&self) -> Board {
        Board {
            width: self.width as int,
            height: self.height as int,
            funcs: Seq::new(self.buttons@.len(), |i: int| self.buttons@[i].func),
            cells: Seq::new(
                (self.width * self.height) as nat,
                |i: int|
                    self.buttons@[(i % (self.height as int)) * self.width + i / (
                    self.height as int)].is_on,
            ),
        }
    }
}

impl Grid {
    /// The grid holds one button for each cell, and each button knows its own
    /// position.
    pub closed spec fn wf(&self) -> bool {
        &&& 0 <= self.width
        &&& 0 <= self.height
        &&& self.width * self.height <= i32::MAX
        &&& self.buttons@.len() == self.width * self.height
        &&& forall|i: int|
            0 <= i < self.buttons@.len() ==> (#[trigger] self.buttons@[i]).coord.x == i % (
            self.width as int) && self.buttons@[i].coord.y == i / (self.width as int)
    }

    /// The buttons, row by row: the one at `(x, y)` stands at index
    /// `y * width + x`.
    pub closed spec fn buttons_spec(&self) -> Seq<Button> {
        self.buttons@
    }

    /// What a write to the button at `(x, y)` does to the board: the cell
    /// gets the state and the rule of the button `b`, and nothing else
    /// changes. The write must leave the position of the button as it was.
    pub proof fn lemma_button_written(&self, after: Grid, x: int, y: int, b: Button)
        requires
            self.wf(),
            self@.in_range(x, y),
            after@.width == self@.width,
            after@.height == self@.height,
            after.buttons_spec() == self.buttons_spec().update(y * self@.width + x, b),
            b.coord.x == x,
            b.coord.y == y,
        ensures
            after.wf(),
            after@ == (Board {
                funcs: self@.funcs.update(y * self@.width + x, b.func),
                cells: self@.cells.update(x * self@.height + y, b.is_on),
                ..self@
            }),
            after@.on(x, y) == b.is_on,
            after@.func_at(x, y) == b.func,
    {
        let index = y * self.width + x;
        self.lemma_view_cell(x, y);
        assert(after.width == self.width && after.height == self.height);
        assert(after.wf());
        assert(after@.funcs =~= self@.funcs.update(index, b.func));
        lemma_cell_index(self.width as int, self.height as int, x, y);
        assert(self.height * self.width == self.width * self.height) by (nonlinear_arith);
        assert(after.buttons@.len() == self.buttons@.len());
        assert forall|i: int| 0 <= i < self@.cells.len() implies after@.cells[i]
            == self@.cells.update(x * self@.height + y, b.is_on)[i] by {
            lemma_index_cell(self.width as int, self.height as int, i);
            let cx = i / (self.height as int);
            let cy = i % (self.height as int);
            lemma_cell_index(self.height as int, self.width as int, cy, cx);
            lemma_cell_index(self.height as int, self.width as int, y, x);
            assert(after@.cells[i] == after.buttons@[cy * self.width + cx].is_on);
            assert(self@.cells[i] == self.buttons@[cy * self.width + cx].is_on);
            if cx == x && cy == y {
                assert(i == x * self.height + y);
            } else {
                assert(cy * self.width + cx != index);
                assert(i != x * self.height + y);
            }
        }
        assert(after@.cells =~= self@.cells.update(x * self@.height + y, b.is_on));
    }

    /// A well-formed grid is a well-formed board whose sizes fit `i32`.
    pub proof fn lemma_view_wf(&self)
        requires
            self.wf(),
        ensures
            self@.wf(),
            self@.width <= i32::MAX,
            self@.height <= i32::MAX,
            self@.width * self@.height <= i32::MAX,
    {
    }

    proof fn lemma_view_cell(&self, x: int, y: int)
        requires
            self.wf(),
            self@.in_range(x, y),
        ensures
            0 <= y * self.width + x < self.buttons@.len(),
            self@.on(x, y) == self.buttons@[y * self.width + x].is_on,
            self@.func_at(x, y) == self.buttons@[y * self.width + x].func,
            self.buttons@[y * self.width + x].coord.x == x,
            self.buttons@[y * self.width + x].coord.y == y,
    {
        lemma_cell_index(self.width as int, self.height as int, x, y);
        lemma_cell_index(self.height as int, self.width as int, y, x);
    }

    /// A grid of `width` columns and `height` rows whose buttons are all off
    /// and inert.
    pub fn new(width: i32, height: i32) -> (grid: Grid)
        requires
            0 <= width,
            0 <= height,
            width * height <= i32::MAX,
        ensures
            grid.wf(),
            grid@ == (Board {
                width: width as int,
                height: height as int,
                funcs: Seq::new((width * height) as nat, |i: int| ButtonFunction::Nothing),
                cells: Seq::new((width * height) as nat, |i: int| false),
            }),
    {
        proof {
            assert(0 <= width * height) by (nonlinear_arith)
                requires
                    0 <= width,
                    0 <= height,
            ;
        }
        let total_buttons = width * height;
        let mut result = Grid {
            buttons: Vec::with_capacity(total_buttons as usize),
            width,
            height,
        };
        let mut y: i32 = 0;
        while y < height
            invariant
                0 <= y <= height,
                0 <= width,
                width * height <= i32::MAX,
                result.width == width,
                result.height == height,
                result.buttons@.len() == y * width,
                forall|i: int|
                    0 <= i < result.buttons@.len() ==> {
                        let b = #[trigger] result.buttons@[i];
                        b.coord.x == i % (width as int) && b.coord.y == i / (width as int)
                            && !b.is_on && b.func == ButtonFunction::Nothing
                    },
            decreases height - y,
        {
            let mut x: i32 = 0;
            while x < width
                invariant
                    0 <= y < height,
                    0 <= x <= width,
                    width * height <= i32::MAX,
                    result.width == width,
                    result.height == height,
                    result.buttons@.len() == y * width + x,
                    forall|i: int|
                        0 <= i < result.buttons@.len() ==> {
                            let b = #[trigger] result.buttons@[i];
                            b.coord.x == i % (width as int) && b.coord.y == i / (width as int)
                                && !b.is_on && b.func == ButtonFunction::Nothing
                        },
                decreases width - x,
            {
                proof {
                    lemma_cell_index(height as int, width as int, y as int, x as int);
                }
                result.buttons.push(Button::new(x, y));
                x += 1;
            }
            proof {
                assert((y + 1) * width == y * width + width) by (nonlinear_arith);
            }
            y += 1;
        }
        proof {
            assert(height * width == width * height) by (nonlinear_arith);
            assert(result@.funcs =~= Seq::new(
                (width * height) as nat,
                |i: int| ButtonFunction::Nothing,
            ));
            assert forall|i: int| 0 <= i < width * height implies !result@.cells[i] by {
                lemma_index_cell(width as int, height as int, i);
                lemma_cell_index(height as int, width as int, i % (height as int), i / (height as int));
            }
            assert(result@.cells =~= Seq::new((width * height) as nat, |i: int| false));
        }
        result
    }

    /// The grid that a level starts from: each button gets the rule that its
    /// selector stands for and the state that the level gives it.
    pub fn from_level(level: &ToggleLevel) -> (grid: Grid)
        requires
            level.wf(),
        ensures
            grid.wf(),
            grid@ == level@.board(),
    {
        let width: i32 = level.width as i32;
        let height: i32 = level.height as i32;
        let mut result = Grid::new(width, height);
        let mut y: i32 = 0;
        while y < height
            invariant
                level.wf(),
                result.wf(),
                width == level.width,
                height == level.height,
                result@.width == width,
                result@.height == height,
                0 <= y <= height,
                forall|x2: int, y2: int|
                    0 <= x2 < width && 0 <= y2 < y ==> #[trigger] result@.on(x2, y2)
                        == level.states@[x2 * height + y2],
                forall|x2: int, y2: int|
                    0 <= x2 < width && 0 <= y2 < y ==> #[trigger] result@.func_at(x2, y2)
                        == function_of_subtype(level.subtypes@[y2 * width + x2]),
            decreases height - y,
        {
            let mut x: i32 = 0;
            while x < width
                invariant
                    level.wf(),
                    result.wf(),
                    width == level.width,
                    height == level.height,
                    result@.width == width,
                    result@.height == height,
                    0 <= y < height,
                    0 <= x <= width,
                    forall|x2: int, y2: int|
                        0 <= x2 < width && (0 <= y2 < y || (y2 == y && x2 < x))
                            ==> #[trigger] result@.on(x2, y2) == level.states@[x2 * height + y2],
                    forall|x2: int, y2: int|
                        0 <= x2 < width && (0 <= y2 < y || (y2 == y && x2 < x))
                            ==> #[trigger] result@.func_at(x2, y2) == function_of_subtype(
                            level.subtypes@[y2 * width + x2],
                        ),
                decreases width - x,
            {
                proof {
                    lemma_cell_index(width as int, height as int, x as int, y as int);
                    lemma_cell_index(height as int, width as int, y as int, x as int);
                    assert(height * width == width * height) by (nonlinear_arith);
                }
                let state_index = (x as usize) * (height as usize) + (y as usize);
                let subtype_index = (y as usize) * (width as usize) + (x as usize);
                let is_on = level.states.get(state_index);
                let func = convert_subtype_to_func(level.subtypes[subtype_index]);
                result.put_button(x, y, is_on, func);
                x += 1;
            }
            y += 1;
        }
        proof {
            let goal = level@.board();
            result.lemma_view_wf();
            assert(height * width == width * height) by (nonlinear_arith);
            assert(result@.funcs.len() == goal.funcs.len());
            assert forall|i: int| 0 <= i < goal.funcs.len() implies result@.funcs[i]
                == goal.funcs[i] by {
                lemma_index_cell(height as int, width as int, i);
                let x2 = i % (width as int);
                let y2 = i / (width as int);
                assert(result@.func_at(x2, y2) == function_of_subtype(
                    level.subtypes@[y2 * width + x2],
                ));
            }
            assert(result@.funcs =~= goal.funcs);
            assert forall|x2: int, y2: int| result@.in_range(x2, y2) implies result@.on(x2, y2)
                == goal.on(x2, y2) by {
                lemma_cell_index(width as int, height as int, x2, y2);
            }
            result@.lemma_same_cells(goal);
        }
        result
    }

    /// The number of columns.
    pub fn width(&self) -> (w: i32)
        ensures
            w == self@.width,
    {
        self.width
    }

    /// The number of rows.
    pub fn height(&self) -> (h: i32)
        ensures
            h == self@.height,
    {
        self.height
    }

    /// Whether `(x, y)` is a cell of the grid.
    pub fn check_range(&self, x: i32, y: i32) -> (inside: bool)
        ensures
            inside == self@.in_range(x as int, y as int),
    {
        (x >= 0 && x < self.width) && (y >= 0 && y < self.height)
    }

    fn index_of(&self, x: i32, y: i32) -> (index: usize)
        requires
            self.wf(),
            self@.in_range(x as int, y as int),
        ensures
            index == y * self.width + x,
            index < self.buttons@.len(),
    {
        proof {
            self.lemma_view_cell(x as int, y as int);
            assert(0 <= y * self.width) by (nonlinear_arith)
                requires
                    0 <= y,
                    0 <= self.width,
            ;
        }
        (y * self.width + x) as usize
    }

    /// The button at `(x, y)`, or `None` where the grid has no such cell.
    pub fn at(&self, x: i32, y: i32) -> (button: Option<&Button>)
        requires
            self.wf(),
        ensures
            button is Some <==> self@.in_range(x as int, y as int),
            button matches Some(b) ==> b.coord == (Coordinate { x, y }) && b.is_on == self@.on(
                x as int,
                y as int,
            ) && b.func == self@.func_at(x as int, y as int),
    {
        if self.check_range(x, y) {
            let index = self.index_of(x, y);
            proof {
                self.lemma_view_cell(x as int, y as int);
            }
            Some(&self.buttons[index])
        } else {
            None
        }
    }

    /// The button at `(x, y)` for writing, or `None` where the grid has no
    /// such cell. What the caller writes to the button becomes the button of
    /// the grid; the other buttons stay as they are. The grid stays well
    /// formed if the position of the button is left as it is.
    pub fn at_mut(&mut self, x: i32, y: i32) -> (button: Option<&mut Button>)
        requires
            old(self).wf(),
        ensures
            button is Some <==> old(self)@.in_range(x as int, y as int),
            button is None ==> *final(self) == *old(self),
            button is Some ==> 0 <= y * old(self)@.width + x < old(self).buttons_spec().len(),
            button matches Some(b) ==> *b == old(self).buttons_spec()[y * old(self)@.width + x],
            button matches Some(b) ==> b.coord == (Coordinate { x, y }),
            button matches Some(b) ==> b.is_on == old(self)@.on(x as int, y as int),
            button matches Some(b) ==> b.func == old(self)@.func_at(x as int, y as int),
            button matches Some(b) ==> final(self).buttons_spec() == old(self).buttons_spec().update(
                y * old(self)@.width + x,
                *final(b),
            ),
            button matches Some(b) ==> final(self)@.width == old(self)@.width,
            button matches Some(b) ==> final(self)@.height == old(self)@.height,
    {
        if self.check_range(x, y) {
            let index = self.index_of(x, y);
            proof {
                self.lemma_view_cell(x as int, y as int);
            }
            Some(&mut self.buttons[index])
        } else {
            None
        }
    }

    /// The states of all cells as a bit array: the cell at `(x, y)` is bit
    /// `x * height + y`.
    pub fn get_states(&self) -> (states: BitArray)
        requires
            self.wf(),
        ensures
            states.wf(),
            states@ == self@.cells,
    {
        proof {
            assert(0 <= self.width * self.height) by (nonlinear_arith)
                requires
                    0 <= self.width,
                    0 <= self.height,
            ;
        }
        let total: usize = (self.width * self.height) as usize;
        let mut result = BitArray::new(total);
        let mut i: usize = 0;
        let mut x: i32 = 0;
        while x < self.width
            invariant
                self.wf(),
                0 <= x <= self.width,
                i == x * self.height,
                result.wf(),
                result@.len() == self.width * self.height,
                forall|j: int| 0 <= j < i ==> result@[j] == self@.cells[j],
            decreases self.width - x,
        {
            let mut y: i32 = 0;
            while y < self.height
                invariant
                    self.wf(),
                    0 <= x < self.width,
                    0 <= y <= self.height,
                    i == x * self.height + y,
                    result.wf(),
                    result@.len() == self.width * self.height,
                    forall|j: int| 0 <= j < i ==> result@[j] == self@.cells[j],
                decreases self.height - y,
            {
                proof {
                    lemma_cell_index(self.width as int, self.height as int, x as int, y as int);
                }
                let on = self.get_cell(x, y);
                result.set(i, on);
                i += 1;
                y += 1;
            }
            proof {
                assert((x + 1) * self.height == x * self.height + self.height) by (nonlinear_arith);
            }
            x += 1;
        }
        proof {
            assert(result@ =~= self@.cells);
        }
        result
    }

    /// Overwrites the states of all cells with the first bits of `b`, in the
    /// order of `get_states`.
    pub fn set_states(&mut self, b: &BitArray)
        requires
            old(self).wf(),
            b.wf(),
            b@.len() >= old(self)@.width * old(self)@.height,
        ensures
            final(self).wf(),
            final(self)@ == old(self)@.with_cells(b@.take(old(self)@.width * old(self)@.height)),
    {
        let mut i: usize = 0;
        let mut x: i32 = 0;
        while x < self.width
            invariant
                self.wf(),
                b.wf(),
                self@.width == old(self)@.width,
                self@.height == old(self)@.height,
                self@.funcs == old(self)@.funcs,
                b@.len() >= self@.width * self@.height,
                0 <= x <= self.width,
                i == x * self.height,
                forall|x2: int, y2: int|
                    0 <= x2 < x && 0 <= y2 < self.height ==> #[trigger] self@.on(x2, y2) == b@[x2
                        * self.height + y2],
            decreases self.width - x,
        {
            let mut y: i32 = 0;
            while y < self.height
                invariant
                    self.wf(),
                    b.wf(),
                    self@.width == old(self)@.width,
                    self@.height == old(self)@.height,
                    self@.funcs == old(self)@.funcs,
                    b@.len() >= self@.width * self@.height,
                    0 <= x < self.width,
                    0 <= y <= self.height,
                    i == x * self.height + y,
                    forall|x2: int, y2: int|
                        (0 <= x2 < x && 0 <= y2 < self.height) || (x2 == x && 0 <= y2 < y)
                            ==> #[trigger] self@.on(x2, y2) == b@[x2 * self.height + y2],
                decreases self.height - y,
            {
                proof {
                    lemma_cell_index(self.width as int, self.height as int, x as int, y as int);
                }
                let on = b.get(i);
                self.put_cell(x, y, on);
                i += 1;
                y += 1;
            }
            proof {
                assert((x + 1) * self.height == x * self.height + self.height) by (nonlinear_arith);
            }
            x += 1;
        }
        proof {
            let goal = old(self)@.with_cells(b@.take(old(self)@.width * old(self)@.height));
            old(self).lemma_view_wf();
            assert forall|x2: int, y2: int| self@.in_range(x2, y2) implies self@.on(x2, y2)
                == goal.on(x2, y2) by {
                lemma_cell_index(self.width as int, self.height as int, x2, y2);
            }
            self@.lemma_same_cells(goal);
        }
    }

    /// Sets every cell to `state`.
    pub fn set_all_state(&mut self, state: bool)
        requires
            old(self).wf(),
        ensures
            final(self).wf(),
            final(self)@ == old(self)@.with_cells(
                Seq::new(old(self)@.cells.len(), |i: int| state),
            ),
    {
        let mut i: usize = 0;
        while i < self.buttons.len()
            invariant
                self.width == old(self).width,
                self.height == old(self).height,
                self.buttons@.len() == old(self).buttons@.len(),
                0 <= i <= self.buttons@.len(),
                forall|j: int|
                    0 <= j < self.buttons@.len() ==> (#[trigger] self.buttons@[j]).coord == old(
                        self,
                    ).buttons@[j].coord && self.buttons@[j].func == old(self).buttons@[j].func,
                forall|j: int| 0 <= j < i ==> (#[trigger] self.buttons@[j]).is_on == state,
            decreases self.buttons@.len() - i,
        {
            self.buttons[i].is_on = state;
            i += 1;
        }
        proof {
            assert(self.wf());
            assert(self@.funcs =~= old(self)@.funcs);
            assert(0 <= self.width * self.height) by (nonlinear_arith)
                requires
                    0 <= self.width,
                    0 <= self.height,
            ;
            assert(self.height * self.width == self.width * self.height) by (nonlinear_arith);
            assert forall|j: int| 0 <= j < self@.cells.len() implies self@.cells[j] == state by {
                lemma_index_cell(self.width as int, self.height as int, j);
                let x = j / (self.height as int);
                let y = j % (self.height as int);
                lemma_cell_index(self.height as int, self.width as int, y, x);
                assert(self.buttons@[y * self.width + x].is_on == state);
            }
            assert(self@.cells =~= Seq::new(old(self)@.cells.len(), |i: int| state));
        }
    }

    pub(crate) fn get_cell(&self, x: i32, y: i32) -> (on: bool)
        requires
            self.wf(),
            self@.in_range(x as int, y as int),
        ensures
            on == self@.on(x as int, y as int),
    {
        let index = self.index_of(x, y);
        proof {
            self.lemma_view_cell(x as int, y as int);
        }
        self.buttons[index].is_on
    }

    pub(crate) fn get_func(&self, x: i32, y: i32) -> (func: ButtonFunction)
        requires
            self.wf(),
            self@.in_range(x as int, y as int),
        ensures
            func == self@.func_at(x as int, y as int),
    {
        let index = self.index_of(x, y);
        proof {
            self.lemma_view_cell(x as int, y as int);
        }
        self.buttons[index].func
    }

    pub(crate) fn put_cell(&mut self, x: i32, y: i32, on: bool)
        requires
            old(self).wf(),
            old(self)@.in_range(x as int, y as int),
        ensures
            final(self).wf(),
            final(self)@.width == old(self)@.width,
            final(self)@.height == old(self)@.height,
            final(self)@.funcs == old(self)@.funcs,
            final(self)@.on(x as int, y as int) == on,
            forall|x2: int, y2: int|
                old(self)@.in_range(x2, y2) && !(x2 == x && y2 == y) ==> #[trigger] final(self)@.on(
                    x2,
                    y2,
                ) == old(self)@.on(x2, y2),
    {
        let index = self.index_of(x, y);
        self.buttons[index].is_on = on;
        proof {
            assert(self.buttons@.len() == old(self).buttons@.len());
            assert forall|i: int| 0 <= i < self.buttons@.len() implies self.buttons@[i].coord == old(
                self,
            ).buttons@[i].coord && self.buttons@[i].func == old(self).buttons@[i].func by {}
            assert(self.wf());
            assert(self@.funcs =~= old(self)@.funcs);
            self.lemma_view_cell(x as int, y as int);
            assert forall|x2: int, y2: int|
                old(self)@.in_range(x2, y2) && !(x2 == x && y2 == y) implies #[trigger] self@.on(
                x2,
                y2,
            ) == old(self)@.on(x2, y2) by {
                self.lemma_view_cell(x2, y2);
                old(self).lemma_view_cell(x2, y2);
                lemma_cell_index(self.height as int, self.width as int, y2, x2);
                lemma_cell_index(self.height as int, self.width as int, y as int, x as int);
            }
        }
    }

    fn put_button(&mut self, x: i32, y: i32, on: bool, func: ButtonFunction)
        requires
            old(self).wf(),
            old(self)@.in_range(x as int, y as int),
        ensures
            final(self).wf(),
            final(self)@.width == old(self)@.width,
            final(self)@.height == old(self)@.height,
            final(self)@.on(x as int, y as int) == on,
            final(self)@.func_at(x as int, y as int) == func,
            forall|x2: int, y2: int|
                old(self)@.in_range(x2, y2) && !(x2 == x && y2 == y) ==> #[trigger] final(self)@.on(
                    x2,
                    y2,
                ) == old(self)@.on(x2, y2),
            forall|x2: int, y2: int|
                old(self)@.in_range(x2, y2) && !(x2 == x && y2 == y)
                    ==> #[trigger] final(self)@.func_at(x2, y2) == old(self)@.func_at(x2, y2),
    {
        let index = self.index_of(x, y);
        self.buttons[index].is_on = on;
        self.buttons[index].func = func;
        proof {
            assert(self.buttons@.len() == old(self).buttons@.len());
            assert forall|i: int| 0 <= i < self.buttons@.len() implies self.buttons@[i].coord == old(
                self,
            ).buttons@[i].coord by {}
            assert(self.wf());
            self.lemma_view_cell(x as int, y as int);
            assert forall|x2: int, y2: int|
                old(self)@.in_range(x2, y2) && !(x2 == x && y2 == y) implies #[trigger] self@.on(
                x2,
                y2,
            ) == old(self)@.on(x2, y2) by {
                self.lemma_view_cell(x2, y2);
                old(self).lemma_view_cell(x2, y2);
                lemma_cell_index(self.height as int, self.width as int, y2, x2);
                lemma_cell_index(self.height as int, self.width as int, y as int, x as int);
            }
            assert forall|x2: int, y2: int|
                old(self)@.in_range(x2, y2) && !(x2 == x && y2 == y) implies #[trigger] self@.func_at(
                x2,
                y2,
            ) == old(self)@.func_at(x2, y2) by {
                self.lemma_view_cell(x2, y2);
                old(self).lemma_view_cell(x2, y2);
                lemma_cell_index(self.height as int, self.width as int, y2, x2);
                lemma_cell_index(self.height as int, self.width as int, y as int, x as int);
            }
        }
    }

    pub(crate) fn toggle_cell(&mut self, x: i32, y: i32)
        requires
            old(self).wf(),
            old(self)@.in_range(x as int, y as int),
        ensures
            final(self).wf(),
            final(self)@.width == old(self)@.width,
            final(self)@.height == old(self)@.height,
            final(self)@.funcs == old(self)@.funcs,
            final(self)@.on(x as int, y as int) == !old(self)@.on(x as int, y as int),
            forall|x2: int, y2: int|
                old(self)@.in_range(x2, y2) && !(x2 == x && y2 == y) ==> #[trigger] final(self)@.on(
                    x2,
                    y2,
                ) == old(self)@.on(x2, y2),
    {
        let was = self.get_cell(x, y);
        self.put_cell(x, y, !was);
    }
}

} // verus!
