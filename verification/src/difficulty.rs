//! How hard a solution works the cells of a level: for each cell, the number
//! of times that its state changes while the solution is played. The
//! difficulty of the solution is made of the counts that are not zero.

use crate::board::Board;
use crate::button::Coordinate;
use crate::grid::Grid;
use crate::level::ToggleLevel;
use vstd::prelude::*;

verus! {

/// How often the state at index `i` changes while `clicks` are played on
/// `board`, one after the other.
pub open spec fn toggle_count(board: Board, clicks: Seq<Coordinate>, i: int) -> nat
    decreases clicks.len(),
{
    if clicks.len() == 0 {
        0
    } else {
        toggle_count(board, clicks.drop_last(), i) + if board.replay(clicks).cells[i]
            != board.replay(clicks.drop_last()).cells[i] {
            1nat
        } else {
            0nat
        }
    }
}

/// Whether every click of `clicks` is at a cell of `board`.
pub open spec fn clicks_in_range(board: Board, clicks: Seq<Coordinate>) -> bool {
    forall|j: int|
        0 <= j < clicks.len() ==> board.in_range(
            (#[trigger] clicks[j]).x as int,
            clicks[j].y as int,
        )
}

/// Plays `orders` on the grid of `level` and counts, for each cell, how often
/// its state changes. The count of the cell at `(x, y)` stands at index
/// `x * height + y`.
pub fn toggle_counts(level: &ToggleLevel, orders: &Vec<Coordinate>) -> (counts: Vec<usize>)
    requires
        level.wf(),
        clicks_in_range(level@.board(), orders@),
    ensures
        counts@.len() == level@.width * level@.height,
        forall|i: int|
            0 <= i < counts@.len() ==> #[trigger] counts@[i] == toggle_count(
                level@.board(),
                orders@,
                i,
            ),
{
    let mut grid = Grid::from_level(level);
    let ghost board = level@.board();
    proof {
        grid.lemma_view_wf();
    }
    let mut previous_state = grid.get_states();
    let total_buttons = previous_state.len();
    let mut diff: Vec<usize> = Vec::new();
    let mut i: usize = 0;
    while i < total_buttons
        invariant
            0 <= i <= total_buttons,
            diff@.len() == i,
            forall|j: int| 0 <= j < i ==> diff@[j] == 0,
        decreases total_buttons - i,
    {
        diff.push(0);
        i += 1;
    }
    let mut k: usize = 0;
    while k < orders.len()
        invariant
            board == level@.board(),
            board.wf(),
            clicks_in_range(board, orders@),
            grid.wf(),
            grid@ == board.replay(orders@.take(k as int)),
            previous_state.wf(),
            previous_state@ == grid@.cells,
            total_buttons == board.cells.len(),
            0 <= k <= orders@.len(),
            diff@.len() == total_buttons,
            forall|j: int|
                0 <= j < total_buttons ==> #[trigger] diff@[j] == toggle_count(
                    board,
                    orders@.take(k as int),
                    j,
                ),
            forall|j: int| 0 <= j < total_buttons ==> #[trigger] diff@[j] <= k,
        decreases orders@.len() - k,
    {
        let ord = orders[k];
        let ghost played = orders@.take(k as int);
        let ghost longer = orders@.take(k + 1);
        proof {
            board.lemma_replay_shape(played);
            assert(longer =~= played.push(ord));
            assert(longer.drop_last() =~= played);
            board.lemma_replay_push(played, ord);
            board.lemma_replay_shape(longer);
        }
        grid.click(ord.x, ord.y);
        let current_state = grid.get_states();
        let mut i: usize = 0;
        while i < total_buttons
            invariant
                previous_state.wf(),
                current_state.wf(),
                previous_state@ == board.replay(played).cells,
                current_state@ == board.replay(longer).cells,
                previous_state@.len() == total_buttons,
                current_state@.len() == total_buttons,
                longer.len() == k + 1,
                longer.drop_last() == played,
                k < usize::MAX,
                0 <= i <= total_buttons,
                diff@.len() == total_buttons,
                forall|j: int|
                    0 <= j < i ==> #[trigger] diff@[j] == toggle_count(board, longer, j) && diff@[j]
                        <= k + 1,
                forall|j: int|
                    i <= j < total_buttons ==> #[trigger] diff@[j] == toggle_count(board, played, j)
                        && diff@[j] <= k,
            decreases total_buttons - i,
        {
            if current_state.get(i) != previous_state.get(i) {
                let count = diff[i];
                diff.set(i, count + 1);
            }
            i += 1;
        }
        previous_state = current_state;
        k += 1;
    }
    proof {
        assert(orders@.take(orders@.len() as int) =~= orders@);
    }
    diff
}

/// The counts of `counts` that are not zero, in their order.
pub open spec fn nonzero(counts: Seq<usize>) -> Seq<usize>
    decreases counts.len(),
{
    if counts.len() == 0 {
        Seq::empty()
    } else if counts.last() != 0 {
        nonzero(counts.drop_last()).push(counts.last())
    } else {
        nonzero(counts.drop_last())
    }
}

/// Leaves out the cells that never changed: only the counts that are not zero
/// enter the difficulty of a solution.
pub fn nonzero_counts(counts: &Vec<usize>) -> (kept: Vec<usize>)
    ensures
        kept@ == nonzero(counts@),
{
    let mut kept: Vec<usize> = Vec::new();
    let mut i: usize = 0;
    while i < counts.len()
        invariant
            0 <= i <= counts@.len(),
            kept@ == nonzero(counts@.take(i as int)),
        decreases counts@.len() - i,
    {
        proof {
            assert(counts@.take(i + 1).drop_last() =~= counts@.take(i as int));
        }
        if counts[i] != 0 {
            kept.push(counts[i]);
        }
        i += 1;
    }
    proof {
        assert(counts@.take(counts@.len() as int) =~= counts@);
    }
    kept
}

} // verus!
