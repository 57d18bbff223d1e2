//! The best-first search for a sequence of clicks that switches a level off.
//!
//! The search keeps a queue of nodes, each a state of the grid with the clicks
//! that lead to it, ordered by a cost that favours states near the goal and
//! short sequences. A state is put into the queue once: the keys of the states
//! that were met are remembered.

use crate::bit_array::{
    bit_sequences, canonical_key, differing_upto, hamming_distance, lemma_bit_sequences_finite,
    lemma_differing_bounds, lemma_packed_injective, packed, BitArray,
};
use crate::board::{lemma_cell_index, Board};
use crate::button::{is_arrow, is_arrow_function, ButtonFunction, Coordinate};
use crate::codec::base64_bytes;
use crate::grid::Grid;
use crate::level::ToggleLevel;
use crate::queue::{queue_entries, queue_len, queue_new, queue_pop, queue_push};
use priority_queue::PriorityQueue;
use vstd::hash_map::StringHashMap;
use vstd::prelude::*;

verus! {

/// Whether every click of `clicks` is a move on `board`.
pub open spec fn valid_clicks(board: Board, clicks: Seq<Coordinate>) -> bool {
    forall|j: int| 0 <= j < clicks.len() ==> board.clickable(#[trigger] clicks[j])
}

/// Whether click `j` of `clicks` repeats the click before it on a button with
/// an arrow rule.
pub open spec fn repeats_arrow(board: Board, clicks: Seq<Coordinate>, j: int) -> bool {
    clicks[j] == clicks[j - 1] && is_arrow_function(
        board.func_at(clicks[j].x as int, clicks[j].y as int),
    )
}

/// Whether no click of `clicks` repeats the click before it on a button with
/// an arrow rule.
pub open spec fn no_arrow_repeat(board: Board, clicks: Seq<Coordinate>) -> bool {
    forall|j: int| 0 < j < clicks.len() ==> !#[trigger] repeats_arrow(board, clicks, j)
}

/// Whether `clicks` is a solution of `board`: at least one click, each of them
/// a move, after which every cell is off.
pub open spec fn is_solution(board: Board, clicks: Seq<Coordinate>) -> bool {
    clicks.len() >= 1 && valid_clicks(board, clicks) && board.replay(clicks).all_off()
}

/// The states of `board` after the first `k` clicks of `clicks`.
pub open spec fn state_after(board: Board, clicks: Seq<Coordinate>, k: int) -> Seq<bool> {
    board.replay(clicks.take(k)).cells
}

/// Whether every cell of `board` is off after the first `k` clicks of
/// `clicks`.
pub open spec fn solved_after(board: Board, clicks: Seq<Coordinate>, k: int) -> bool {
    board.replay(clicks.take(k)).all_off()
}

/// Whether the states that `clicks` lead through, the start among them, are
/// all different: the clicks never come back to a state.
pub open spec fn distinct_states(board: Board, clicks: Seq<Coordinate>) -> bool {
    forall|i: int, j: int|
        0 <= i < j <= clicks.len() ==> #[trigger] state_after(board, clicks, i)
            != #[trigger] state_after(board, clicks, j)
}

/// Whether `clicks` reach the goal with their last click at the earliest: no
/// shorter run of their first clicks switches every cell off.
pub open spec fn no_early_solution(board: Board, clicks: Seq<Coordinate>) -> bool {
    forall|k: int| 1 <= k < clicks.len() ==> !#[trigger] solved_after(board, clicks, k)
}

/// Whether the single click at `c` solves `board`.
pub open spec fn solves_at_once(board: Board, c: Coordinate) -> bool {
    is_solution(board, Seq::empty().push(c))
}

/// The cost of a node: the square of its distance from the goal, plus two for
/// each click that leads to it.
pub open spec fn cost_of(distance: nat, clicks: nat) -> nat {
    distance * distance + 2 * clicks
}

/// After one click, the cost is two at the goal and more than two anywhere
/// else.
pub proof fn lemma_cost_of_one_click(distance: nat)
    ensures
        cost_of(0, 1) == 2,
        distance >= 1 ==> cost_of(distance, 1) > 2,
{
    assert(0 * 0 == 0) by (nonlinear_arith);
    if distance >= 1 {
        assert(distance * distance >= 1) by (nonlinear_arith)
            requires
                distance >= 1,
        ;
    }
}

/// A node of the search: a state of the grid, the clicks that lead to it from
/// the start, and the last of these clicks.
#[derive(Debug, PartialEq, Eq, Hash)]
pub struct SolverItem {
    pub state: BitArray,
    pub coord: Coordinate,
    pub orders: Vec<Coordinate>,
}

impl SolverItem {
    /// A node without state and without clicks.
    pub fn new() -> (item: SolverItem)
        ensures
            item.state.wf(),
            item.state@.len() == 0,
            item.coord == (Coordinate { x: 0, y: 0 }),
            item.orders@.len() == 0,
    {
        SolverItem { state: BitArray::new(0), coord: Coordinate::new(0, 0), orders: Vec::new() }
    }
}

/// The outcome of a search.
#[derive(Debug)]
pub enum Result {
    /// The clicks that solve the level, first to last.
    Success(Vec<Coordinate>),
    /// The search met every state that it could reach and none of them was
    /// the goal.
    Fail,
}

/// The Hamming distance of two bit arrays of one length.
pub fn calculate_diff(b1: &BitArray, b2: &BitArray) -> (diff: usize)
    requires
        b1.wf(),
        b2.wf(),
        b1@.len() == b2@.len(),
    ensures
        diff == hamming_distance(b1@, b2@),
{
    let mut diff: usize = 0;
    let mut i: usize = 0;
    while i < b2.len()
        invariant
            b1.wf(),
            b2.wf(),
            b1@.len() == b2@.len(),
            0 <= i <= b2@.len(),
            diff == differing_upto(b1@, b2@, i as nat),
            diff <= i,
        decreases b2@.len() - i,
    {
        if b1.get(i) != b2.get(i) {
            diff += 1;
        }
        i += 1;
    }
    diff
}

/// The cost of the node `a` in a search for `target_state`.
pub fn calculate_cost(a: &SolverItem, target_state: &BitArray) -> (cost: u128)
    requires
        a.state.wf(),
        target_state.wf(),
        a.state@.len() == target_state@.len(),
    ensures
        cost == cost_of(hamming_distance(a.state@, target_state@), a.orders@.len()),
{
    let diff = calculate_diff(&a.state, target_state) as u128;
    let clicks = a.orders.len() as u128;
    proof {
        assert(diff * diff + 2 * clicks <= u128::MAX) by (nonlinear_arith)
            requires
                0 <= diff <= 0xffff_ffff_ffff_ffff,
                0 <= clicks <= 0xffff_ffff_ffff_ffff,
        ;
        assert(diff * diff <= diff * diff + 2 * clicks) by (nonlinear_arith)
            requires
                0 <= clicks,
        ;
    }
    diff * diff + 2 * clicks
}

/// A copy of a sequence of clicks.
fn copy_path(path: &Vec<Coordinate>) -> (copy: Vec<Coordinate>)
    ensures
        copy@ == path@,
{
    let mut copy: Vec<Coordinate> = Vec::new();
    let mut i: usize = 0;
    while i < path.len()
        invariant
            0 <= i <= path@.len(),
            copy@ == path@.take(i as int),
        decreases path@.len() - i,
    {
        copy.push(path[i]);
        i += 1;
        proof {
            assert(copy@ =~= path@.take(i as int));
        }
    }
    proof {
        assert(path@.take(path@.len() as int) =~= path@);
    }
    copy
}

/// What a search has made so far: the clicks of each node, in the order in
/// which the nodes were made; the nodes that wait in the queue; and the states
/// that were met.
pub struct Frontier {
    pub paths: Seq<Seq<Coordinate>>,
    pub open: Set<usize>,
    pub seen: Set<Seq<bool>>,
}

/// The button that the search tries as number `p`: it goes through the rows
/// from the lowest up, and through each row from the left.
pub open spec fn button_at(board: Board, p: int) -> Coordinate {
    Coordinate { x: (p % board.width) as i32, y: (p / board.width) as i32 }
}

/// Whether the search leaves out the click at `c` after the clicks of `path`:
/// the button is inert, or it has an arrow rule and was clicked just before.
pub open spec fn is_pruned(board: Board, path: Seq<Coordinate>, c: Coordinate) -> bool {
    !board.clickable(c) || (path.len() >= 1 && c == path.last() && is_arrow_function(
        board.func_at(c.x as int, c.y as int),
    ))
}

/// The frontier after the click at `c` was tried on the state that `path`
/// leads to: a new node joins the queue, unless `dedup` is set and its state
/// was met before.
pub open spec fn with_click(
    board: Board,
    f: Frontier,
    path: Seq<Coordinate>,
    c: Coordinate,
    dedup: bool,
) -> Frontier {
    let state = board.replay(path.push(c)).cells;
    if dedup && f.seen.contains(state) {
        f
    } else {
        Frontier {
            paths: f.paths.push(path.push(c)),
            open: f.open.insert(f.paths.len() as usize),
            seen: f.seen.insert(state),
        }
    }
}

/// The frontier after the first `upto` buttons were tried on the state that
/// `path` leads to.
pub open spec fn sweep(
    board: Board,
    f: Frontier,
    path: Seq<Coordinate>,
    dedup: bool,
    upto: nat,
) -> Frontier
    decreases upto,
{
    if upto == 0 {
        f
    } else {
        let before = sweep(board, f, path, dedup, (upto - 1) as nat);
        let c = button_at(board, upto - 1);
        if is_pruned(board, path, c) {
            before
        } else {
            with_click(board, before, path, c, dedup)
        }
    }
}

/// The frontier that a search starts with: the start was met, and every
/// button was tried on it once, whatever state it led to.
pub open spec fn first_frontier(board: Board) -> Frontier {
    sweep(
        board,
        Frontier {
            paths: Seq::empty(),
            open: Set::empty(),
            seen: Set::empty().insert(board.cells),
        },
        Seq::empty(),
        false,
        board.cells.len(),
    )
}

/// The cost of the node that `path` leads to.
pub open spec fn node_cost(board: Board, path: Seq<Coordinate>) -> nat {
    cost_of(
        hamming_distance(board.replay(path).cells, Seq::new(board.cells.len(), |i: int| false)),
        path.len(),
    )
}

/// Whether node `i` waits in the queue and no node that waits there costs
/// less. Several nodes may cost the same.
pub open spec fn is_cheapest(board: Board, f: Frontier, i: usize) -> bool {
    &&& f.open.contains(i)
    &&& i < f.paths.len()
    &&& forall|j: usize| #[trigger]
        f.open.contains(j) ==> node_cost(board, f.paths[i as int]) <= node_cost(
            board,
            f.paths[j as int],
        )
}

/// The frontier after node `i` left the queue and every button was tried on
/// its state.
pub open spec fn after_pick(board: Board, f: Frontier, i: usize) -> Frontier {
    sweep(
        board,
        Frontier { open: f.open.remove(i), ..f },
        f.paths[i as int],
        true,
        board.cells.len(),
    )
}

/// The frontier after the nodes `picks` left the queue, one after the other.
pub open spec fn frontier_after(board: Board, picks: Seq<usize>) -> Frontier
    decreases picks.len(),
{
    if picks.len() == 0 {
        first_frontier(board)
    } else {
        after_pick(board, frontier_after(board, picks.drop_last()), picks.last())
    }
}

/// Whether the search may take the nodes `picks` out of the queue, one after
/// the other: each was a cheapest node when it left, and none was at the goal.
pub open spec fn legal_picks(board: Board, picks: Seq<usize>) -> bool
    decreases picks.len(),
{
    picks.len() == 0 || {
        let f = frontier_after(board, picks.drop_last());
        &&& legal_picks(board, picks.drop_last())
        &&& is_cheapest(board, f, picks.last())
        &&& !board.replay(f.paths[picks.last() as int]).all_off()
    }
}

/// Whether a search that takes the nodes `picks` out of the queue ends with
/// `result`: it fails if the queue is empty then, and it succeeds with the
/// clicks of a cheapest node if that node is at the goal.
pub open spec fn search_gives(board: Board, picks: Seq<usize>, result: Result) -> bool {
    let f = frontier_after(board, picks);
    legal_picks(board, picks) && match result {
        Result::Fail => f.open =~= Set::<usize>::empty(),
        Result::Success(clicks) => exists|i: usize| #[trigger]
            is_cheapest(board, f, i) && f.paths[i as int] == clicks@ && board.replay(
                clicks@,
            ).all_off(),
    }
}

/// The states of `origin` after a click at `c` on the states `cells`.
pub open spec fn next_cells(origin: Board, cells: Seq<bool>, c: Coordinate) -> Seq<bool> {
    origin.with_cells(cells).click(c.x as int, c.y as int).cells
}

/// Whether `seen` holds every state that one move leads to from `cells`.
pub open spec fn closed_under_clicks(origin: Board, seen: Set<Seq<bool>>, cells: Seq<bool>) -> bool {
    forall|c: Coordinate|
        origin.clickable(c) ==> seen.contains(#[trigger] next_cells(origin, cells, c))
}

/// What holds of every node that the search makes: its clicks are moves, none
/// of them repeats an arrow, they lead from `origin` to its state, and that
/// state and the one before the last click are among those met.
spec fn node_ok(origin: Board, seen: Set<Seq<bool>>, node: SolverItem) -> bool {
    &&& node.state.wf()
    &&& node.orders@.len() >= 1
    &&& valid_clicks(origin, node.orders@)
    &&& no_arrow_repeat(origin, node.orders@)
    &&& node.coord == node.orders@.last()
    &&& node.state@ == origin.replay(node.orders@).cells
    &&& seen.contains(node.state@)
    &&& seen.contains(origin.replay(node.orders@.drop_last()).cells)
    &&& path_ok(origin, seen, node.orders@)
    &&& node.orders@.len() >= 2 ==> distinct_states(origin, node.orders@)
}

/// What holds of the clicks of a node, and of no clicks at all: every state
/// that they lead through was met, and none before the last is the goal.
spec fn path_ok(origin: Board, seen: Set<Seq<bool>>, clicks: Seq<Coordinate>) -> bool {
    &&& forall|k: int|
        0 <= k <= clicks.len() ==> seen.contains(#[trigger] state_after(origin, clicks, k))
    &&& no_early_solution(origin, clicks)
}

/// A set of states that is closed under clicks from `cells` stays so when it
/// grows.
proof fn lemma_closed_grows(
    origin: Board,
    small: Set<Seq<bool>>,
    big: Set<Seq<bool>>,
    cells: Seq<bool>,
)
    requires
        small.subset_of(big),
        closed_under_clicks(origin, small, cells),
    ensures
        closed_under_clicks(origin, big, cells),
{
    assert forall|c: Coordinate| origin.clickable(c) implies big.contains(
        #[trigger] next_cells(origin, cells, c),
    ) by {
        assert(small.contains(next_cells(origin, cells, c)));
    }
}

/// The clicks of a node stay in order when the set of states that were met
/// grows.
proof fn lemma_path_ok_grows(
    origin: Board,
    small: Set<Seq<bool>>,
    big: Set<Seq<bool>>,
    clicks: Seq<Coordinate>,
)
    requires
        small.subset_of(big),
        path_ok(origin, small, clicks),
    ensures
        path_ok(origin, big, clicks),
{
    assert forall|k: int| 0 <= k <= clicks.len() implies big.contains(
        #[trigger] state_after(origin, clicks, k),
    ) by {
        assert(small.contains(state_after(origin, clicks, k)));
    }
}

/// The clicks `path` with one more click `c`, which leads to a state that was
/// not met before, never come back to a state; and they reach no goal early,
/// if `path` does not end at the goal.
proof fn lemma_path_extends(
    origin: Board,
    seen: Set<Seq<bool>>,
    path: Seq<Coordinate>,
    c: Coordinate,
)
    requires
        path_ok(origin, seen, path),
        path.len() >= 1 ==> !origin.replay(path).all_off(),
    ensures
        path_ok(origin, seen.insert(origin.replay(path.push(c)).cells), path.push(c)),
        distinct_states(origin, path) && !seen.contains(origin.replay(path.push(c)).cells)
            ==> distinct_states(origin, path.push(c)),
{
    let longer = path.push(c);
    let last = origin.replay(longer).cells;
    assert(longer.take(longer.len() as int) =~= longer);
    assert(path.take(path.len() as int) =~= path);
    assert forall|k: int| 0 <= k <= path.len() implies #[trigger] state_after(origin, longer, k)
        == state_after(origin, path, k) && solved_after(origin, longer, k) == solved_after(
        origin,
        path,
        k,
    ) by {
        assert(longer.take(k) =~= path.take(k));
    }
    assert forall|k: int| 0 <= k <= longer.len() implies seen.insert(last).contains(
        #[trigger] state_after(origin, longer, k),
    ) by {
        if k <= path.len() {
            assert(seen.contains(state_after(origin, path, k)));
        }
    }
    assert forall|k: int| 1 <= k < longer.len() implies !#[trigger] solved_after(
        origin,
        longer,
        k,
    ) by {
        assert(longer.take(k) =~= path.take(k));
        if k < path.len() {
            assert(!solved_after(origin, path, k));
        }
    }
    if distinct_states(origin, path) && !seen.contains(last) {
        assert forall|i: int, j: int| 0 <= i < j <= longer.len() implies #[trigger] state_after(
            origin,
            longer,
            i,
        ) != #[trigger] state_after(origin, longer, j) by {
            assert(state_after(origin, longer, i) == state_after(origin, path, i));
            if j <= path.len() {
                assert(state_after(origin, longer, j) == state_after(origin, path, j));
            } else {
                assert(seen.contains(state_after(origin, path, i)));
            }
        }
    }
}

/// What holds of a node that has left the queue for good: its state is not
/// the goal, and every state that one move leads to from it was met.
spec fn node_done(origin: Board, seen: Set<Seq<bool>>, node: SolverItem) -> bool {
    &&& !origin.with_cells(node.state@).all_off()
    &&& closed_under_clicks(origin, seen, node.state@)
}

/// The priority of a node in the queue, which hands out the greatest
/// priority first: the lower the cost, the greater the priority.
spec fn priority_of(node: SolverItem, target: Seq<bool>) -> int {
    u128::MAX - cost_of(hamming_distance(node.state@, target), node.orders@.len())
}

/// Whether `(x, y)` comes before `(bx, by)` in the order in which the search
/// tries the buttons: row by row, each row from the left.
spec fn tried_before(c: Coordinate, bx: int, by: int) -> bool {
    c.y < by || (c.y == by && c.x < bx)
}

/// A search in progress: the queue of nodes, the states that were met, and
/// the grid that the clicks are tried on.
pub struct Search {
    grid: Grid,
    target: BitArray,
    nodes: Vec<SolverItem>,
    queue: PriorityQueue<usize, u128>,
    visited: StringHashMap<bool>,
    /// The board that the search starts from.
    origin: Ghost<Board>,
    /// The states that were met: those whose keys are in `visited`.
    seen: Ghost<Set<Seq<bool>>>,
    /// For each key of `visited`, the state that it names.
    owner: Ghost<Map<Seq<char>, Seq<bool>>>,
    /// For each state that was met, but for the start, a node that holds it.
    holder: Ghost<Map<Seq<bool>, int>>,
    /// The nodes that left the queue and were not at the goal, in their order.
    picks: Ghost<Seq<usize>>,
}

/// What a search tells of a round in which the node that left the queue was
/// not at the goal.
#[derive(Debug, Clone, Copy, PartialEq, Eq)]
pub struct Report {
    /// The Hamming distance of the node's state from the goal.
    pub distance: usize,
    /// How many nodes stayed in the queue when the node left it.
    pub waiting: usize,
    /// How many clicks lead to the node.
    pub clicks: usize,
}

/// What one round of a search came to.
#[derive(Debug)]
pub enum Progress {
    /// The node that left the queue is at the goal: the clicks that lead to it.
    Solved(Vec<Coordinate>),
    /// The queue holds no node: the search has failed.
    Exhausted,
    /// The node that left the queue is not at the goal, and every button was
    /// tried on its state.
    Working(Report),
}

impl Search {
    spec fn shape_ok(&self) -> bool {
        &&& self.grid.wf()
        &&& self.origin@.wf()
        &&& self.grid@.width == self.origin@.width
        &&& self.grid@.height == self.origin@.height
        &&& self.grid@.funcs == self.origin@.funcs
        &&& self.target.wf()
        &&& self.target@ == Seq::new(self.origin@.cells.len(), |i: int| false)
    }

    spec fn seen_ok(&self) -> bool {
        &&& self.seen@.contains(self.origin@.cells)
        &&& forall|s: Seq<bool>| #[trigger]
            self.seen@.contains(s) ==> {
                &&& s.len() == self.origin@.cells.len()
                &&& self.visited@.contains_key(canonical_key(s))
                &&& base64_bytes(canonical_key(s)) == Some(packed(s))
                &&& (s == self.origin@.cells || (0 <= self.holder@[s] < self.nodes@.len()
                    && self.nodes@[self.holder@[s]].state@ == s))
            }
        &&& forall|k: Seq<char>| #[trigger]
            self.visited@.contains_key(k) ==> self.seen@.contains(self.owner@[k]) && canonical_key(
                self.owner@[k],
            ) == k
    }

    spec fn nodes_ok(&self) -> bool {
        forall|i: int|
            0 <= i < self.nodes@.len() ==> node_ok(self.origin@, self.seen@, #[trigger] self.nodes@[i])
    }

    spec fn queue_ok(&self) -> bool {
        &&& queue_entries(self.queue).dom().finite()
        &&& forall|i: usize| #[trigger]
            queue_entries(self.queue).contains_key(i) ==> i < self.nodes@.len()
                && queue_entries(self.queue)[i] == priority_of(self.nodes@[i as int], self.target@)
    }

    /// What holds before the first node leaves the queue: every node is one
    /// click from the start and waits in the queue.
    spec fn fresh(&self) -> bool {
        forall|i: int|
            0 <= i < self.nodes@.len() ==> (#[trigger] self.nodes@[i]).orders@.len() == 1
                && queue_entries(self.queue).contains_key(i as usize)
    }

    /// Whether some node holds the single click `c`.
    spec fn has_first_click(&self, c: Coordinate) -> bool {
        exists|i: int|
            0 <= i < self.nodes@.len() && (#[trigger] self.nodes@[i]).orders@ == Seq::empty().push(
                c,
            )
    }

    spec fn done_ok(&self, current: int) -> bool {
        forall|i: int|
            0 <= i < self.nodes@.len() && i != current && !queue_entries(self.queue).contains_key(
                i as usize,
            ) ==> node_done(self.origin@, self.seen@, #[trigger] self.nodes@[i])
    }

    /// The invariant of the search. The node `current`, if there is one, has
    /// left the queue and its moves are being tried.
    spec fn inv(&self, current: int) -> bool {
        &&& self.shape_ok()
        &&& self.seen_ok()
        &&& self.nodes_ok()
        &&& self.queue_ok()
        &&& self.done_ok(current)
    }

    /// What the search has made so far.
    spec fn frontier(&self) -> Frontier {
        Frontier {
            paths: Seq::new(self.nodes@.len(), |i: int| self.nodes@[i].orders@),
            open: queue_entries(self.queue).dom(),
            seen: self.seen@,
        }
    }

    /// How many states were not met yet.
    pub closed spec fn unvisited(&self) -> nat {
        bit_sequences(self.origin@.cells.len()).difference(self.seen@).len()
    }

    /// How many nodes wait in the queue.
    pub closed spec fn waiting(&self) -> nat {
        queue_entries(self.queue).dom().len()
    }

    /// The board that the search started from.
    pub closed spec fn board(&self) -> Board {
        self.origin@
    }

    /// The nodes that left the queue and were not at the goal, in their order.
    pub closed spec fn picks(&self) -> Seq<usize> {
        self.picks@
    }

    /// The search is between two rounds, and what it has made is what the
    /// rounds so far lead to.
    pub closed spec fn wf(&self) -> bool {
        &&& self.inv(-1)
        &&& closed_under_clicks(self.origin@, self.seen@, self.origin@.cells)
        &&& legal_picks(self.origin@, self.picks@)
        &&& self.frontier() == frontier_after(self.origin@, self.picks@)
        &&& self.picks@.len() == 0 ==> self.fresh()
        &&& self.picks@.len() == 0 ==> forall|c: Coordinate|
            self.origin@.clickable(c) ==> #[trigger] self.has_first_click(c)
        &&& self.picks@.len() > 0 ==> forall|c: Coordinate|
            !#[trigger] solves_at_once(self.origin@, c)
    }

    /// Clicks the button at `(x, y)` on the state `from`, which the clicks of
    /// `path` lead to, and puts the outcome into the queue as a new node.
    /// With `dedup` set, an outcome that was met before is left out.
    fn step(
        &mut self,
        from: &BitArray,
        path: &Vec<Coordinate>,
        x: i32,
        y: i32,
        dedup: bool,
        Ghost(current): Ghost<int>,
    ) -> (pushed: bool)
        requires
            old(self).inv(current),
            from.wf(),
            from@ == old(self).origin@.replay(path@).cells,
            old(self).seen@.contains(from@),
            valid_clicks(old(self).origin@, path@),
            no_arrow_repeat(old(self).origin@, path@.push(Coordinate { x, y })),
            old(self).origin@.clickable(Coordinate { x, y }),
            path_ok(old(self).origin@, old(self).seen@, path@),
            path@.len() >= 1 ==> !old(self).origin@.replay(path@).all_off(),
            !dedup ==> path@.len() == 0,
            dedup ==> distinct_states(old(self).origin@, path@) || closed_under_clicks(
                old(self).origin@,
                old(self).seen@,
                from@,
            ),
        ensures
            final(self).inv(current),
            final(self).origin@ == old(self).origin@,
            final(self).picks@ == old(self).picks@,
            old(self).seen@.subset_of(final(self).seen@),
            final(self).seen@.contains(next_cells(old(self).origin@, from@, Coordinate { x, y })),
            final(self).nodes@.len() >= old(self).nodes@.len(),
            forall|i: int|
                0 <= i < old(self).nodes@.len() ==> #[trigger] final(self).nodes@[i] == old(
                    self,
                ).nodes@[i],
            forall|i: usize| #[trigger]
                queue_entries(old(self).queue).contains_key(i) ==> queue_entries(
                    final(self).queue,
                ).contains_key(i),
            forall|i: usize| #[trigger]
                queue_entries(final(self).queue).contains_key(i) ==> queue_entries(
                    old(self).queue,
                ).contains_key(i) || i >= old(self).nodes@.len(),
            final(self).unvisited() <= old(self).unvisited(),
            dedup && pushed ==> final(self).unvisited() < old(self).unvisited(),
            dedup && !pushed ==> queue_entries(final(self).queue) == queue_entries(old(self).queue),
            !dedup ==> pushed,
            pushed ==> final(self).nodes@.len() == old(self).nodes@.len() + 1,
            pushed ==> final(self).nodes@[old(self).nodes@.len() as int].orders@ == path@.push(
                Coordinate { x, y },
            ),
            pushed ==> queue_entries(final(self).queue).contains_key(old(self).nodes.len()),
            final(self).frontier() == with_click(
                old(self).origin@,
                old(self).frontier(),
                path@,
                Coordinate { x, y },
                dedup,
            ),
    {
        let ghost origin = self.origin@;
        let ghost c = Coordinate { x, y };
        let ghost n = origin.cells.len();
        proof {
            origin.lemma_replay_shape(path@);
            origin.lemma_replay_push(path@, c);
            self.grid.lemma_view_wf();
        }
        self.grid.set_states(from);
        proof {
            assert(from@.take(origin.width * origin.height) =~= from@);
            assert(self.grid@ == origin.replay(path@));
        }
        self.grid.click(x, y);
        let state = self.grid.get_states();
        let key = state.to_base64();
        proof {
            origin.lemma_replay_shape(path@.push(c));
            assert(state@ == origin.replay(path@.push(c)).cells);
            assert(state@ == next_cells(origin, from@, c));
            assert(state@.len() == n);
        }
        let known = self.visited.contains_key(key.as_str());
        proof {
            if known {
                let s = self.owner@[key@];
                assert(self.seen@.contains(s));
                lemma_packed_injective(s, state@);
            } else {
                if self.seen@.contains(state@) {
                    assert(self.visited@.contains_key(canonical_key(state@)));
                }
            }
            assert(known == self.seen@.contains(state@));
        }
        if dedup && known {
            return false;
        }
        let mut orders = copy_path(path);
        orders.push(Coordinate::new(x, y));
        let item = SolverItem { state, coord: Coordinate::new(x, y), orders };
        let cost = calculate_cost(&item, &self.target);
        let index = self.nodes.len();
        let ghost old_seen = self.seen@;
        proof {
            assert(item.orders@ == path@.push(c));
            assert(item.orders@.drop_last() =~= path@);
            assert(valid_clicks(origin, item.orders@)) by {
                assert forall|j: int| 0 <= j < item.orders@.len() implies origin.clickable(
                    #[trigger] item.orders@[j],
                ) by {
                    if j < path@.len() {
                        assert(origin.clickable(path@[j]));
                    }
                }
            }
            lemma_path_extends(origin, old_seen, path@, c);
            assert(old_seen.insert(item.state@) =~= (if known {
                old_seen
            } else {
                old_seen.insert(item.state@)
            }));
            if !known {
                lemma_bit_sequences_finite(n);
                bit_sequences(n).lemma_set_insert_diff_decreases(self.seen@, item.state@);
                self.seen = Ghost(self.seen@.insert(item.state@));
                self.owner = Ghost(self.owner@.insert(key@, item.state@));
                self.holder = Ghost(self.holder@.insert(item.state@, index as int));
            }
        }
        self.nodes.push(item);
        queue_push(&mut self.queue, index, u128::MAX - cost);
        self.visited.insert(key, true);
        proof {
            let node = self.nodes@[index as int];
            assert(node_ok(origin, self.seen@, node));
            assert forall|i: int| 0 <= i < self.nodes@.len() implies node_ok(
                origin,
                self.seen@,
                #[trigger] self.nodes@[i],
            ) by {
                if i < index {
                    assert(self.nodes@[i] == old(self).nodes@[i]);
                    assert(node_ok(origin, old_seen, old(self).nodes@[i]));
                    lemma_path_ok_grows(origin, old_seen, self.seen@, self.nodes@[i].orders@);
                }
            }
            assert forall|i: int|
                0 <= i < self.nodes@.len() && i != current && !queue_entries(
                    self.queue,
                ).contains_key(i as usize) implies node_done(
                origin,
                self.seen@,
                #[trigger] self.nodes@[i],
            ) by {
                assert(i != index);
                assert(self.nodes@[i] == old(self).nodes@[i]);
                assert(!queue_entries(old(self).queue).contains_key(i as usize));
                assert(node_done(origin, old_seen, old(self).nodes@[i]));
                assert forall|d: Coordinate| origin.clickable(d) implies self.seen@.contains(
                    #[trigger] next_cells(origin, self.nodes@[i].state@, d),
                ) by {
                    assert(old_seen.contains(next_cells(origin, self.nodes@[i].state@, d)));
                }
            }
            assert forall|s: Seq<bool>| #[trigger] self.seen@.contains(s) implies {
                &&& s.len() == origin.cells.len()
                &&& self.visited@.contains_key(canonical_key(s))
                &&& base64_bytes(canonical_key(s)) == Some(packed(s))
                &&& (s == origin.cells || (0 <= self.holder@[s] < self.nodes@.len()
                    && self.nodes@[self.holder@[s]].state@ == s))
            } by {
                if old_seen.contains(s) {
                    if s != origin.cells {
                        assert(self.holder@[s] == old(self).holder@[s]);
                        assert(self.nodes@[self.holder@[s]] == old(self).nodes@[old(
                            self,
                        ).holder@[s]]);
                    }
                }
            }
            assert forall|k: Seq<char>| #[trigger] self.visited@.contains_key(k) implies self.seen@.contains(
                self.owner@[k],
            ) && canonical_key(self.owner@[k]) == k by {
                if k != key@ {
                    assert(old(self).visited@.contains_key(k));
                }
            }
            assert(self.seen_ok());
            assert(self.queue_ok());
            let f = old(self).frontier();
            let g = with_click(origin, f, path@, c, dedup);
            assert(self.nodes@.len() == self.nodes.len());
            assert(self.frontier().paths =~= g.paths);
            assert(self.frontier().open =~= g.open);
            assert(self.frontier().seen =~= g.seen);
        }
        true
    }

    /// Tries every move on the start state and puts each outcome into the
    /// queue.
    fn first_ply(&mut self, start: &BitArray)
        requires
            old(self).inv(-1),
            old(self).nodes@.len() == 0,
            start.wf(),
            start@ == old(self).origin@.cells,
        ensures
            final(self).inv(-1),
            final(self).origin@ == old(self).origin@,
            final(self).picks@ == old(self).picks@,
            closed_under_clicks(final(self).origin@, final(self).seen@, final(self).origin@.cells),
            final(self).fresh(),
            forall|c: Coordinate|
                final(self).origin@.clickable(c) ==> #[trigger] final(self).has_first_click(c),
            final(self).frontier() == sweep(
                old(self).origin@,
                old(self).frontier(),
                Seq::empty(),
                false,
                old(self).origin@.cells.len(),
            ),
    {
        let ghost origin = self.origin@;
        let ghost f0 = self.frontier();
        let path: Vec<Coordinate> = Vec::new();
        let height = self.grid.height();
        let width = self.grid.width();
        proof {
            self.grid.lemma_view_wf();
            assert(origin.replay(path@) == origin);
        }
        let mut y: i32 = 0;
        while y < height
            invariant
                self.inv(-1),
                self.origin@ == origin,
                self.picks@ == old(self).picks@,
                start.wf(),
                start@ == origin.cells,
                path@.len() == 0,
                height == origin.height,
                width == origin.width,
                0 <= y <= height,
                self.frontier() == sweep(origin, f0, path@, false, (y * width) as nat),
                origin.wf(),
                forall|c: Coordinate|
                    origin.clickable(c) && tried_before(c, 0, y as int) ==> self.seen@.contains(
                        #[trigger] next_cells(origin, origin.cells, c),
                    ),
                self.fresh(),
                forall|c: Coordinate|
                    origin.clickable(c) && tried_before(c, 0, y as int)
                        ==> #[trigger] self.has_first_click(c),
            decreases height - y,
        {
            let mut x: i32 = 0;
            while x < width
                invariant
                    self.inv(-1),
                    self.origin@ == origin,
                    self.picks@ == old(self).picks@,
                    self.frontier() == sweep(origin, f0, path@, false, (y * width + x) as nat),
                    origin.wf(),
                    self.fresh(),
                    forall|c: Coordinate|
                        origin.clickable(c) && tried_before(c, x as int, y as int)
                            ==> #[trigger] self.has_first_click(c),
                    start.wf(),
                    start@ == origin.cells,
                    path@.len() == 0,
                    height == origin.height,
                    width == origin.width,
                    0 <= y < height,
                    0 <= x <= width,
                    forall|c: Coordinate|
                        origin.clickable(c) && tried_before(c, x as int, y as int)
                            ==> self.seen@.contains(#[trigger] next_cells(origin, origin.cells, c)),
                decreases width - x,
            {
                let func = self.grid.get_func(x, y);
                proof {
                    lemma_cell_index(height as int, width as int, y as int, x as int);
                    assert(button_at(origin, y * width + x) == (Coordinate { x, y }));
                    assert(path@ =~= Seq::empty());
                }
                if func != ButtonFunction::Nothing {
                    proof {
                        assert(origin.replay(path@) == origin);
                    }
                    let ghost before = *self;
                    self.step(start, &path, x, y, false, Ghost(-1));
                    proof {
                        let c = Coordinate { x, y };
                        let at = before.nodes@.len() as int;
                        assert(path@.push(c) =~= Seq::empty().push(c));
                        assert(self.nodes@[at].orders@ == Seq::empty().push(c));
                        assert(self.has_first_click(c));
                        assert forall|i: int| 0 <= i < self.nodes@.len() implies (
                        #[trigger] self.nodes@[i]).orders@.len() == 1 && queue_entries(
                            self.queue,
                        ).contains_key(i as usize) by {
                            if i < at {
                                assert(self.nodes@[i] == before.nodes@[i]);
                                assert(queue_entries(before.queue).contains_key(i as usize));
                            }
                        }
                        assert forall|d: Coordinate|
                            origin.clickable(d) && tried_before(d, x + 1, y as int)
                                implies #[trigger] self.has_first_click(d) by {
                            if d != c {
                                assert(before.has_first_click(d));
                                let i = choose|i: int|
                                    0 <= i < before.nodes@.len() && (
                                    #[trigger] before.nodes@[i]).orders@ == Seq::empty().push(d);
                                assert(self.nodes@[i] == before.nodes@[i]);
                            }
                        }
                    }
                }
                x += 1;
            }
            proof {
                assert((y + 1) * width == y * width + width) by (nonlinear_arith);
            }
            y += 1;
        }
        proof {
            assert(height * width == width * height) by (nonlinear_arith);
        }
    }

    /// Tries every move on the state of node `index`, which has just left the
    /// queue, and puts each outcome that was not met before into the queue.
    /// A second click in a row on a button with an arrow rule is not tried: it
    /// would lead back to the state before the first.
    fn expand(&mut self, index: usize)
        requires
            old(self).inv(index as int),
            index < old(self).nodes@.len(),
            !queue_entries(old(self).queue).contains_key(index),
            !old(self).origin@.with_cells(old(self).nodes@[index as int].state@).all_off(),
            closed_under_clicks(old(self).origin@, old(self).seen@, old(self).origin@.cells),
        ensures
            final(self).inv(-1),
            final(self).origin@ == old(self).origin@,
            final(self).picks@ == old(self).picks@,
            old(self).seen@.subset_of(final(self).seen@),
            closed_under_clicks(final(self).origin@, final(self).seen@, final(self).origin@.cells),
            final(self).frontier() == sweep(
                old(self).origin@,
                old(self).frontier(),
                old(self).nodes@[index as int].orders@,
                true,
                old(self).origin@.cells.len(),
            ),
            final(self).unvisited() <= old(self).unvisited(),
            final(self).unvisited() == old(self).unvisited() ==> queue_entries(final(self).queue)
                == queue_entries(old(self).queue),
    {
        let ghost origin = self.origin@;
        let ghost f0 = self.frontier();
        let from = self.nodes[index].state.clone();
        let path = copy_path(&self.nodes[index].orders);
        let last = self.nodes[index].coord;
        let height = self.grid.height();
        let width = self.grid.width();
        let ghost node = self.nodes@[index as int];
        proof {
            self.grid.lemma_view_wf();
            assert(node_ok(origin, self.seen@, node));
            assert(origin.clickable(path@[path@.len() - 1]));
            origin.lemma_replay_shape(path@);
            if path@.len() == 1 && from@ != origin.cells {
                assert(path@.take(0) =~= Seq::empty());
                assert(path@.take(1) =~= path@);
                assert(distinct_states(origin, path@));
            }
        }
        let item_func = self.grid.get_func(last.x, last.y);
        let mut y: i32 = 0;
        while y < height
            invariant
                self.inv(index as int),
                self.origin@ == origin,
                self.picks@ == old(self).picks@,
                old(self).seen@.subset_of(self.seen@),
                self.unvisited() <= old(self).unvisited(),
                self.unvisited() == old(self).unvisited() ==> queue_entries(self.queue)
                    == queue_entries(old(self).queue),
                index < self.nodes@.len(),
                self.nodes@[index as int] == node,
                !queue_entries(self.queue).contains_key(index),
                node_ok(origin, self.seen@, node),
                closed_under_clicks(origin, self.seen@, origin.cells),
                !origin.replay(path@).all_off(),
                distinct_states(origin, path@) || from@ == origin.cells,
                self.frontier() == sweep(origin, f0, path@, true, (y * width) as nat),
                origin.wf(),
                from.wf(),
                from@ == node.state@,
                path@ == node.orders@,
                last == node.coord,
                item_func == origin.func_at(last.x as int, last.y as int),
                height == origin.height,
                width == origin.width,
                0 <= y <= height,
                forall|c: Coordinate|
                    origin.clickable(c) && tried_before(c, 0, y as int) ==> self.seen@.contains(
                        #[trigger] next_cells(origin, from@, c),
                    ),
            decreases height - y,
        {
            let mut x: i32 = 0;
            while x < width
                invariant
                    self.inv(index as int),
                    self.origin@ == origin,
                    self.picks@ == old(self).picks@,
                    old(self).seen@.subset_of(self.seen@),
                    self.unvisited() <= old(self).unvisited(),
                    self.unvisited() == old(self).unvisited() ==> queue_entries(self.queue)
                        == queue_entries(old(self).queue),
                    index < self.nodes@.len(),
                    self.nodes@[index as int] == node,
                    !queue_entries(self.queue).contains_key(index),
                    node_ok(origin, self.seen@, node),
                    closed_under_clicks(origin, self.seen@, origin.cells),
                    !origin.replay(path@).all_off(),
                    distinct_states(origin, path@) || from@ == origin.cells,
                    self.frontier() == sweep(origin, f0, path@, true, (y * width + x) as nat),
                    origin.wf(),
                    from.wf(),
                    from@ == node.state@,
                    path@ == node.orders@,
                    last == node.coord,
                    item_func == origin.func_at(last.x as int, last.y as int),
                    height == origin.height,
                    width == origin.width,
                    0 <= y < height,
                    0 <= x <= width,
                    forall|c: Coordinate|
                        origin.clickable(c) && tried_before(c, x as int, y as int)
                            ==> self.seen@.contains(#[trigger] next_cells(origin, from@, c)),
                decreases width - x,
            {
                let func = self.grid.get_func(x, y);
                proof {
                    lemma_cell_index(height as int, width as int, y as int, x as int);
                    assert(button_at(origin, y * width + x) == (Coordinate { x, y }));
                }
                let mut should_skip = func == ButtonFunction::Nothing;
                if x == last.x && y == last.y {
                    if is_arrow(item_func) && is_arrow(func) {
                        should_skip = true;
                    }
                }
                if !should_skip {
                    proof {
                        let c = Coordinate { x, y };
                        assert forall|j: int| 0 < j < path@.push(c).len() implies !#[trigger] repeats_arrow(
                            origin,
                            path@.push(c),
                            j,
                        ) by {
                            if j < path@.len() {
                                assert(!repeats_arrow(origin, path@, j));
                            }
                        }
                    }
                    let ghost seen_before = self.seen@;
                    self.step(&from, &path, x, y, true, Ghost(index as int));
                    proof {
                        lemma_closed_grows(origin, seen_before, self.seen@, origin.cells);
                    }
                } else if func != ButtonFunction::Nothing {
                    proof {
                        // the click would undo the last one
                        let before = origin.replay(path@.drop_last());
                        origin.lemma_replay_shape(path@.drop_last());
                        origin.lemma_replay_shape(path@);
                        before.lemma_arrow_click_twice(x as int, y as int);
                        assert(next_cells(origin, from@, last) == before.cells);
                    }
                }
                x += 1;
            }
            proof {
                assert((y + 1) * width == y * width + width) by (nonlinear_arith);
            }
            y += 1;
        }
        proof {
            assert(height * width == width * height) by (nonlinear_arith);
        }
        proof {
            assert(closed_under_clicks(origin, self.seen@, node.state@));
            assert(node_done(origin, self.seen@, self.nodes@[index as int]));
        }
    }

    /// With the queue empty, every state that moves lead to from the start
    /// was met.
    proof fn lemma_reaches_seen(&self, clicks: Seq<Coordinate>)
        requires
            self.inv(-1),
            queue_entries(self.queue).dom() == Set::<usize>::empty(),
            closed_under_clicks(self.origin@, self.seen@, self.origin@.cells),
            valid_clicks(self.origin@, clicks),
        ensures
            self.seen@.contains(self.origin@.replay(clicks).cells),
        decreases clicks.len(),
    {
        let origin = self.origin@;
        if clicks.len() > 0 {
            let front = clicks.drop_last();
            let c = clicks.last();
            assert(valid_clicks(origin, front)) by {
                assert forall|j: int| 0 <= j < front.len() implies origin.clickable(
                    #[trigger] front[j],
                ) by {
                    assert(front[j] == clicks[j]);
                }
            }
            self.lemma_reaches_seen(front);
            origin.lemma_replay_shape(front);
            let s = origin.replay(front).cells;
            assert(origin.replay(clicks).cells == next_cells(origin, s, c));
            if s != origin.cells {
                let i = self.holder@[s];
                assert(node_done(origin, self.seen@, self.nodes@[i]));
            }
        }
    }
}

/// Whether `report` tells of node `i` as it leaves the queue after the rounds
/// `picks`.
pub open spec fn is_report(board: Board, picks: Seq<usize>, i: usize, report: Report) -> bool {
    let f = frontier_after(board, picks);
    let path = f.paths[i as int];
    &&& report.clicks == path.len()
    &&& report.distance == hamming_distance(
        board.replay(path).cells,
        Seq::new(board.cells.len(), |k: int| false),
    )
    &&& report.waiting == f.open.len() - 1
}

impl Search {
    /// Starts a search on `level`: every button is tried on the start state.
    pub fn begin(level: &ToggleLevel) -> (search: Search)
        requires
            level.wf(),
        ensures
            search.wf(),
            search.board() == level@.board(),
            search.picks() == Seq::<usize>::empty(),
    {
        let mut grid = Grid::from_level(level);
        let start = grid.get_states();
        let ghost origin = grid@;
        grid.set_all_state(false);
        let target = grid.get_states();
        let mut visited: StringHashMap<bool> = StringHashMap::new();
        let key = start.to_base64();
        let ghost start_key = key@;
        visited.insert(key, true);
        proof {
            origin.lemma_replay_shape(Seq::empty());
        }
        let mut search = Search {
            grid,
            target,
            nodes: Vec::new(),
            queue: queue_new(),
            visited,
            origin: Ghost(origin),
            seen: Ghost(Set::empty().insert(start@)),
            owner: Ghost(Map::empty().insert(start_key, start@)),
            holder: Ghost(Map::empty()),
            picks: Ghost(Seq::empty()),
        };
        proof {
            assert(search.target@ =~= Seq::new(origin.cells.len(), |i: int| false));
            assert(search.inv(-1));
            let blank = Frontier {
                paths: Seq::empty(),
                open: Set::empty(),
                seen: Set::empty().insert(origin.cells),
            };
            assert(search.frontier().paths =~= blank.paths);
            assert(search.frontier().open =~= blank.open);
            assert(search.frontier() == blank);
        }
        search.first_ply(&start);
        search
    }

    /// One round of the search: takes a cheapest node out of the queue. If the
    /// node is at the goal, the search ends with its clicks; else every button
    /// is tried on its state. With no node in the queue, the search ends
    /// without a solution.
    ///
    /// The outcome of the last round is the outcome of a run that
    /// `search_gives` describes. A solution that comes back has no click that
    /// repeats the one before it on a button with an arrow rule, reaches the
    /// goal with its last click and not before, and never comes back to a
    /// state; where a single click solves the level, it is a single click.
    pub fn advance(&mut self) -> (progress: Progress)
        requires
            old(self).wf(),
        ensures
            final(self).board() == old(self).board(),
            progress matches Progress::Solved(clicks) ==> search_gives(
                old(self).board(),
                old(self).picks(),
                Result::Success(clicks),
            ),
            progress matches Progress::Solved(clicks) ==> is_solution(old(self).board(), clicks@),
            progress matches Progress::Solved(clicks) ==> no_arrow_repeat(
                old(self).board(),
                clicks@,
            ),
            progress matches Progress::Solved(clicks) ==> no_early_solution(
                old(self).board(),
                clicks@,
            ),
            progress matches Progress::Solved(clicks) ==> clicks@.len() == 1 || distinct_states(
                old(self).board(),
                clicks@,
            ),
            progress matches Progress::Solved(clicks) ==> clicks@.len() == 1 || forall|
                c: Coordinate,
            | !#[trigger] solves_at_once(old(self).board(), c),
            progress matches Progress::Solved(clicks) ==> !old(self).board().all_off()
                || solves_at_once(old(self).board(), clicks@[0]),
            progress is Exhausted ==> search_gives(
                old(self).board(),
                old(self).picks(),
                Result::Fail,
            ),
            progress is Exhausted ==> forall|clicks: Seq<Coordinate>| #[trigger]
                is_solution(old(self).board(), clicks) ==> old(self).board().all_off(),
            progress is Exhausted ==> forall|c: Coordinate|
                !#[trigger] solves_at_once(old(self).board(), c),
            progress is Working ==> final(self).wf(),
            progress is Working ==> final(self).picks().len() == old(self).picks().len() + 1,
            progress is Working ==> final(self).picks().drop_last() == old(self).picks(),
            progress matches Progress::Working(report) ==> is_report(
                old(self).board(),
                old(self).picks(),
                final(self).picks().last(),
                report,
            ),
            progress is Working ==> final(self).unvisited() < old(self).unvisited() || (
            final(self).unvisited() == old(self).unvisited() && final(self).waiting()
                < old(self).waiting()),
    {
        let ghost origin = self.origin@;
        let ghost picks = self.picks@;
        let ghost fresh = picks.len() == 0;
        let ghost before_seen = self.seen@;
        let ghost before_queue = queue_entries(self.queue);
        let ghost before = *self;
        match queue_pop(&mut self.queue) {
            None => {
                proof {
                    assert forall|c: Coordinate| !#[trigger] solves_at_once(origin, c) by {
                        if fresh && solves_at_once(origin, c) {
                            let clicks = Seq::empty().push(c);
                            assert(origin.clickable(clicks[0]));
                            assert(before.has_first_click(c));
                            let i = choose|i: int|
                                0 <= i < before.nodes@.len() && (
                                #[trigger] before.nodes@[i]).orders@ == Seq::empty().push(c);
                            assert(before_queue.dom().contains(i as usize));
                        }
                    }
                    assert forall|clicks: Seq<Coordinate>| #[trigger]
                        is_solution(origin, clicks) implies origin.all_off() by {
                        self.lemma_reaches_seen(clicks);
                        let s = origin.replay(clicks).cells;
                        origin.lemma_replay_shape(clicks);
                        if s != origin.cells {
                            let i = self.holder@[s];
                            assert(node_done(origin, self.seen@, self.nodes@[i]));
                        }
                    }
                }
                proof {
                    assert(self.frontier() == before.frontier());
                    assert(search_gives(origin, picks, Result::Fail));
                }
                return Progress::Exhausted;
            },
            Some((index, priority)) => {
                let diff = calculate_diff(&self.nodes[index].state, &self.target);
                let waiting = queue_len(&self.queue);
                let clicks_so_far = self.nodes[index].orders.len();
                proof {
                    let node = self.nodes@[index as int];
                    assert(node_ok(origin, self.seen@, node));
                    lemma_differing_bounds(node.state@, self.target@, node.state@.len());
                    origin.lemma_replay_shape(node.orders@);
                    let f = before.frontier();
                    assert(self.nodes@.len() == self.nodes.len());
                    assert forall|j: usize| #[trigger] f.open.contains(j) implies node_cost(
                        origin,
                        f.paths[index as int],
                    ) <= node_cost(origin, f.paths[j as int]) by {
                        let other = self.nodes@[j as int];
                        assert(before_queue.contains_key(j));
                        assert(node_ok(origin, self.seen@, other));
                        assert(before_queue[j] == priority_of(other, self.target@));
                        assert(before_queue[index] == priority_of(node, self.target@));
                        assert(before_queue[j] <= priority);
                    }
                    assert(is_cheapest(origin, f, index));
                }
                if diff == 0 {
                    proof {
                        let node = self.nodes@[index as int];
                        assert(origin.clickable(node.orders@[0]));
                        if origin.all_off() {
                            // only a first click can lead back to the start
                            assert(node.state@ =~= origin.cells);
                            assert(node.orders@.take(0) =~= Seq::empty());
                            assert(node.orders@.take(node.orders@.len() as int) =~= node.orders@);
                            assert(state_after(origin, node.orders@, 0) == origin.cells);
                            assert(state_after(origin, node.orders@, node.orders@.len() as int)
                                == node.state@);
                            assert(node.orders@.len() == 1);
                            assert(node.orders@ =~= Seq::empty().push(node.orders@[0]));
                            assert(is_solution(origin, node.orders@));
                            assert(solves_at_once(origin, node.orders@[0]));
                        }
                    }
                    let clicks = copy_path(&self.nodes[index].orders);
                    proof {
                        let f = before.frontier();
                        assert(f.paths[index as int] == clicks@);
                        assert(search_gives(origin, picks, Result::Success(clicks)));
                    }
                    return Progress::Solved(clicks);
                }
                proof {
                    assert forall|c: Coordinate| !#[trigger] solves_at_once(origin, c) by {
                        if fresh && solves_at_once(origin, c) {
                            // the node of that click waited in the queue at
                            // a priority that no unsolved node reaches
                            let clicks = Seq::empty().push(c);
                            assert(origin.clickable(clicks[0]));
                            assert(before.has_first_click(c));
                            let i = choose|i: int|
                                0 <= i < before.nodes@.len() && (
                                #[trigger] before.nodes@[i]).orders@ == Seq::empty().push(c);
                            let solved = self.nodes@[i];
                            let popped = self.nodes@[index as int];
                            assert(node_ok(origin, self.seen@, solved));
                            assert(self.nodes@.len() == self.nodes.len());
                            assert(before_queue.contains_key(i as usize));
                            lemma_differing_bounds(
                                solved.state@,
                                self.target@,
                                solved.state@.len(),
                            );
                            assert(hamming_distance(solved.state@, self.target@) == 0);
                            assert(solved.orders@.len() == 1);
                            assert(popped.orders@.len() == 1);
                            assert(before_queue[i as usize] == priority_of(solved, self.target@));
                            assert(before_queue[index] == priority_of(popped, self.target@));
                            assert(before_queue[i as usize] <= priority);
                            let d = hamming_distance(popped.state@, self.target@);
                            assert(d == diff);
                            lemma_cost_of_one_click(d);
                        }
                    }
                    assert(queue_entries(self.queue).dom() =~= before_queue.dom().remove(index));
                    assert forall|i: int|
                        0 <= i < self.nodes@.len() && i != index && !queue_entries(
                            self.queue,
                        ).contains_key(i as usize) implies node_done(
                        origin,
                        self.seen@,
                        #[trigger] self.nodes@[i],
                    ) by {
                        let j = i as usize;
                        assert(self.nodes@.len() == self.nodes.len());
                        assert(j != index);
                        assert(before_queue.remove(index).dom().contains(j)
                            == before_queue.dom().contains(j));
                        assert(!before_queue.contains_key(j));
                    }
                    assert forall|i: usize| #[trigger]
                        queue_entries(self.queue).contains_key(i) implies i
                        < self.nodes@.len() by {
                        assert(before_queue.contains_key(i));
                    }
                    assert(self.inv(index as int));
                }
                let ghost popped = self.frontier();
                self.expand(index);
                proof {
                    let f = before.frontier();
                    assert(popped.open =~= f.open.remove(index));
                    assert(popped == (Frontier { open: f.open.remove(index), ..f }));
                    assert(picks.push(index).drop_last() =~= picks);
                    self.picks = Ghost(picks.push(index));
                    assert forall|c: Coordinate| origin.clickable(c) implies self.seen@.contains(
                        #[trigger] next_cells(origin, origin.cells, c),
                    ) by {
                        assert(before_seen.contains(next_cells(origin, origin.cells, c)));
                    }
                    assert(f.open.remove(index).len() == f.open.len() - 1);
                    assert(self.picks@.last() == index);
                }
                Progress::Working(Report { distance: diff, waiting, clicks: clicks_so_far })
            },
        }
    }
}

/// Searches for clicks that switch every cell of `level` off.
///
/// The outcome is the one of a run that `search_gives` describes: the search
/// tries every button on the start, then takes a cheapest node out of the
/// queue again and again and tries every button on its state, until the node
/// that it takes is at the goal or the queue is empty. Which of several
/// cheapest nodes leaves the queue is not fixed.
///
/// A success gives a solution in which no click repeats the one before it on
/// a button with an arrow rule. The solution reaches the goal with its last
/// click and not before, and it never comes back to a state; where a single
/// click solves the level, the solution is a single click. The search fails
/// only where no sequence of moves leads from the start to the goal, or where
/// the level starts at the goal and no first move leaves it there; in that
/// last case it always fails. It fails in particular where the level has no
/// button to click.
pub fn run_astar(level: &ToggleLevel) -> (result: Result)
    requires
        level.wf(),
    ensures
        result matches Result::Success(clicks) ==> is_solution(level@.board(), clicks@),
        result matches Result::Success(clicks) ==> no_arrow_repeat(level@.board(), clicks@),
        result matches Result::Success(clicks) ==> clicks@.len() == 1 || forall|c: Coordinate|
            !#[trigger] solves_at_once(level@.board(), c),
        result matches Result::Success(clicks) ==> no_early_solution(level@.board(), clicks@),
        result matches Result::Success(clicks) ==> clicks@.len() == 1 || distinct_states(
            level@.board(),
            clicks@,
        ),
        result matches Result::Success(clicks) ==> !level@.board().all_off() || solves_at_once(
            level@.board(),
            clicks@[0],
        ),
        level@.board().all_off() && (forall|c: Coordinate|
            !#[trigger] solves_at_once(level@.board(), c)) ==> result is Fail,
        result is Fail ==> forall|clicks: Seq<Coordinate>| #[trigger]
            is_solution(level@.board(), clicks) ==> level@.board().all_off(),
        result is Fail ==> forall|c: Coordinate| !#[trigger] solves_at_once(level@.board(), c),
        (forall|c: Coordinate| !#[trigger] level@.board().clickable(c)) ==> result is Fail,
        exists|picks: Seq<usize>| #[trigger] search_gives(level@.board(), picks, result),
{
    let mut search = Search::begin(level);
    loop
        invariant
            search.wf(),
            search.board() == level@.board(),
        decreases search.unvisited(), search.waiting(),
    {
        let ghost picks = search.picks();
        match search.advance() {
            Progress::Solved(clicks) => {
                let result = Result::Success(clicks);
                proof {
                    assert(search_gives(level@.board(), picks, result));
                    assert(level@.board().clickable(clicks@[0]));
                }
                return result;
            },
            Progress::Exhausted => {
                proof {
                    assert(search_gives(level@.board(), picks, Result::Fail));
                }
                return Result::Fail;
            },
            Progress::Working(_) => {},
        }
    }
}

} // verus!
