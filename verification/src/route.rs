use vstd::prelude::*;

verus! {

/// One of the two directions of travel on the grid.
#[derive(Clone, Copy, Debug, PartialEq, Eq, Structural)]
pub enum Axis {
    Horizontal,
    Vertical,
}

impl Axis {
    /// The other axis.
    pub open spec fn spec_perpendicular(self) -> Axis {
        match self {
            Axis::Horizontal => Axis::Vertical,
            Axis::Vertical => Axis::Horizontal,
        }
    }

    /// The other axis.
    #[verifier::when_used_as_spec(spec_perpendicular)]
    pub fn perpendicular(self) -> (other: Axis)
        ensures
            other == self.spec_perpendicular(),
    {
        match self {
            Axis::Horizontal => Axis::Vertical,
            Axis::Vertical => Axis::Horizontal,
        }
    }

    /// The slot of this axis in a pair of per-axis values: 0 for horizontal,
    /// 1 for vertical.
    pub open spec fn spec_slot(self) -> int {
        match self {
            Axis::Horizontal => 0,
            Axis::Vertical => 1,
        }
    }

    /// The slot of this axis in a pair of per-axis values: 0 for horizontal,
    /// 1 for vertical.
    pub fn slot(self) -> (slot: usize)
        ensures
            slot == self.spec_slot(),
    {
        match self {
            Axis::Horizontal => 0,
            Axis::Vertical => 1,
        }
    }
}

/// A node of the search: a cell together with the axis of the run that has
/// just ended there. The run that leaves it goes along the other axis.
#[derive(Clone, Copy, Debug, PartialEq, Eq, Structural)]
pub struct State {
    pub row: usize,
    pub col: usize,
    pub axis: Axis,
}

/// The rows of a grid as sequences of cell costs.
pub open spec fn cells(weights: Seq<Vec<u8>>) -> Seq<Seq<u8>> {
    Seq::new(weights.len(), |row: int| weights[row]@)
}

/// A grid has at least one cell, rows of one length, and costs from 0 to 9.
pub open spec fn well_formed(grid: Seq<Seq<u8>>) -> bool {
    &&& grid.len() >= 1
    &&& grid[0].len() >= 1
    &&& forall|row: int| 0 <= row < grid.len() ==> (#[trigger] grid[row]).len() == grid[0].len()
    &&& forall|row: int, col: int|
        0 <= row < grid.len() && 0 <= col < grid[0].len() ==> #[trigger] grid[row][col] <= 9
}

/// The cell of the state is a cell of the grid.
pub open spec fn in_grid(grid: Seq<Seq<u8>>, state: State) -> bool {
    state.row < grid.len() && state.col < grid[0].len()
}

/// The search starts in the top-left cell, with either axis behind it.
pub open spec fn at_start(state: State) -> bool {
    state.row == 0 && state.col == 0
}

/// The search ends in the bottom-right cell.
pub open spec fn at_target(grid: Seq<Seq<u8>>, state: State) -> bool {
    state.row == grid.len() - 1 && state.col == grid[0].len() - 1
}

/// The row reached from `row` after `steps` cells along `axis`.
pub open spec fn row_after(row: int, axis: Axis, forward: bool, steps: int) -> int {
    match axis {
        Axis::Horizontal => row,
        Axis::Vertical => if forward {
            row + steps
        } else {
            row - steps
        },
    }
}

/// The column reached from `col` after `steps` cells along `axis`.
pub open spec fn col_after(col: int, axis: Axis, forward: bool, steps: int) -> int {
    match axis {
        Axis::Horizontal => if forward {
            col + steps
        } else {
            col - steps
        },
        Axis::Vertical => col,
    }
}

/// The cost of a straight run of `steps` cells from (`row`, `col`): the sum
/// of the costs of the cells entered.
pub open spec fn run_cost(
    grid: Seq<Seq<u8>>,
    row: int,
    col: int,
    axis: Axis,
    forward: bool,
    steps: int,
) -> int
    decreases steps,
{
    if steps <= 0 {
        0
    } else {
        run_cost(grid, row, col, axis, forward, steps - 1) + grid[row_after(
            row,
            axis,
            forward,
            steps,
        )][col_after(col, axis, forward, steps)]
    }
}

/// The number of cells between two states along the axis of `to`.
pub open spec fn move_len(from: State, to: State) -> int {
    match to.axis {
        Axis::Horizontal => if to.col >= from.col {
            to.col - from.col
        } else {
            from.col - to.col
        },
        Axis::Vertical => if to.row >= from.row {
            to.row - from.row
        } else {
            from.row - to.row
        },
    }
}

/// Whether the run between two states goes towards larger coordinates.
pub open spec fn move_forward(from: State, to: State) -> bool {
    match to.axis {
        Axis::Horizontal => to.col >= from.col,
        Axis::Vertical => to.row >= from.row,
    }
}

/// A move is one straight run of `min_run` to `max_run` cells that stays in
/// the grid and turns away from the axis of the run before it.
pub open spec fn is_move(
    grid: Seq<Seq<u8>>,
    min_run: int,
    max_run: int,
    from: State,
    to: State,
) -> bool {
    &&& in_grid(grid, from)
    &&& in_grid(grid, to)
    &&& to.axis == from.axis.spec_perpendicular()
    &&& match to.axis {
        Axis::Horizontal => to.row == from.row,
        Axis::Vertical => to.col == from.col,
    }
    &&& min_run <= move_len(from, to) <= max_run
}

/// The cost of a move: the sum of the costs of the cells it enters.
pub open spec fn move_cost(grid: Seq<Seq<u8>>, from: State, to: State) -> int {
    run_cost(
        grid,
        from.row as int,
        from.col as int,
        to.axis,
        move_forward(from, to),
        move_len(from, to),
    )
}

/// A path starts in the top-left cell and goes on by moves.
pub open spec fn is_path(grid: Seq<Seq<u8>>, min_run: int, max_run: int, path: Seq<State>) -> bool {
    &&& path.len() >= 1
    &&& at_start(path[0])
    &&& in_grid(grid, path[0])
    &&& forall|i: int|
        0 <= i < path.len() - 1 ==> is_move(grid, min_run, max_run, #[trigger] path[i], path[i + 1])
}

/// The cost of a path: the sum of the costs of its moves. The start cell is
/// not entered, so a path without a move costs nothing.
pub open spec fn path_cost(grid: Seq<Seq<u8>>, path: Seq<State>) -> int
    decreases path.len(),
{
    if path.len() <= 1 {
        0
    } else {
        path_cost(grid, path.drop_last()) + move_cost(
            grid,
            path[path.len() - 2],
            path[path.len() - 1],
        )
    }
}

/// A route is a path that ends in the bottom-right cell.
pub open spec fn is_route(grid: Seq<Seq<u8>>, min_run: int, max_run: int, path: Seq<State>) -> bool {
    is_path(grid, min_run, max_run, path) && at_target(grid, path.last())
}

/// Some path ends in `state` at cost `cost`.
pub open spec fn reachable_at(
    grid: Seq<Seq<u8>>,
    min_run: int,
    max_run: int,
    state: State,
    cost: int,
) -> bool {
    exists|path: Seq<State>|
        #[trigger] is_path(grid, min_run, max_run, path) && path.last() == state && path_cost(
            grid,
            path,
        ) == cost
}

/// `cost` is the cost of some route, and no route costs less.
pub open spec fn is_cheapest(grid: Seq<Seq<u8>>, min_run: int, max_run: int, cost: int) -> bool {
    &&& exists|route: Seq<State>|
        #[trigger] is_route(grid, min_run, max_run, route) && path_cost(grid, route) == cost
    &&& forall|route: Seq<State>|
        #[trigger] is_route(grid, min_run, max_run, route) ==> path_cost(grid, route) >= cost
}

/// What a search reports: the cost of a cheapest route, or nothing where no
/// route costs less than the largest 32-bit number.
pub open spec fn search_outcome(
    grid: Seq<Seq<u8>>,
    min_run: int,
    max_run: int,
    outcome: Option<u32>,
) -> bool {
    match outcome {
        Some(cost) => cost < u32::MAX && is_cheapest(grid, min_run, max_run, cost as int),
        None => forall|route: Seq<State>|
            #[trigger] is_route(grid, min_run, max_run, route) ==> path_cost(grid, route)
                >= u32::MAX,
    }
}

/// A run of `steps` cells that stays in the grid costs between 0 and 9 a cell.
pub proof fn lemma_run_cost_bounds(
    grid: Seq<Seq<u8>>,
    row: int,
    col: int,
    axis: Axis,
    forward: bool,
    steps: int,
)
    requires
        well_formed(grid),
        0 <= steps,
        forall|k: int|
            1 <= k <= steps ==> 0 <= #[trigger] row_after(row, axis, forward, k) < grid.len() && 0
                <= col_after(col, axis, forward, k) < grid[0].len(),
    ensures
        0 <= run_cost(grid, row, col, axis, forward, steps) <= 9 * steps,
    decreases steps,
{
    if steps > 0 {
        lemma_run_cost_bounds(grid, row, col, axis, forward, steps - 1);
        let r = row_after(row, axis, forward, steps);
        let c = col_after(col, axis, forward, steps);
        assert(grid[r][c] <= 9);
    }
}

/// A move costs between 0 and 9 for each cell it enters.
pub proof fn lemma_move_cost_bounds(
    grid: Seq<Seq<u8>>,
    min_run: int,
    max_run: int,
    from: State,
    to: State,
)
    requires
        well_formed(grid),
        is_move(grid, min_run, max_run, from, to),
    ensures
        0 <= move_cost(grid, from, to) <= 9 * move_len(from, to),
{
    lemma_run_cost_bounds(
        grid,
        from.row as int,
        from.col as int,
        to.axis,
        move_forward(from, to),
        move_len(from, to),
    );
}

/// A path goes on by one move: it stays a path, and its cost grows by the
/// cost of the move.
pub proof fn lemma_path_push(
    grid: Seq<Seq<u8>>,
    min_run: int,
    max_run: int,
    path: Seq<State>,
    to: State,
)
    requires
        is_path(grid, min_run, max_run, path),
        is_move(grid, min_run, max_run, path.last(), to),
    ensures
        is_path(grid, min_run, max_run, path.push(to)),
        path_cost(grid, path.push(to)) == path_cost(grid, path) + move_cost(
            grid,
            path.last(),
            to,
        ),
{
    let longer = path.push(to);
    assert(longer.drop_last() =~= path);
    assert forall|i: int| 0 <= i < longer.len() - 1 implies is_move(
        grid,
        min_run,
        max_run,
        #[trigger] longer[i],
        longer[i + 1],
    ) by {
        if i < path.len() - 1 {
            assert(is_move(grid, min_run, max_run, path[i], path[i + 1]));
        }
    }
}

/// A path without its last move is a path, and ends where that move began.
pub proof fn lemma_path_drop_last(
    grid: Seq<Seq<u8>>,
    min_run: int,
    max_run: int,
    path: Seq<State>,
)
    requires
        is_path(grid, min_run, max_run, path),
        path.len() >= 2,
    ensures
        is_path(grid, min_run, max_run, path.drop_last()),
        is_move(grid, min_run, max_run, path.drop_last().last(), path.last()),
        path_cost(grid, path) == path_cost(grid, path.drop_last()) + move_cost(
            grid,
            path.drop_last().last(),
            path.last(),
        ),
{
    let shorter = path.drop_last();
    assert forall|i: int| 0 <= i < shorter.len() - 1 implies is_move(
        grid,
        min_run,
        max_run,
        #[trigger] shorter[i],
        shorter[i + 1],
    ) by {
        assert(is_move(grid, min_run, max_run, path[i], path[i + 1]));
    }
    assert(is_move(grid, min_run, max_run, path[path.len() - 2], path[path.len() - 2 + 1]));
}

/// Every state on a path lies in the grid, and no path has a negative cost.
pub proof fn lemma_path_facts(grid: Seq<Seq<u8>>, min_run: int, max_run: int, path: Seq<State>)
    requires
        well_formed(grid),
        is_path(grid, min_run, max_run, path),
    ensures
        in_grid(grid, path.last()),
        path_cost(grid, path) >= 0,
    decreases path.len(),
{
    if path.len() >= 2 {
        lemma_path_drop_last(grid, min_run, max_run, path);
        lemma_path_facts(grid, min_run, max_run, path.drop_last());
        lemma_move_cost_bounds(grid, min_run, max_run, path.drop_last().last(), path.last());
    }
}

/// What is reachable stays reachable one move further, at the cost of the
/// move on top.
pub proof fn lemma_reachable_step(
    grid: Seq<Seq<u8>>,
    min_run: int,
    max_run: int,
    from: State,
    cost: int,
    to: State,
)
    requires
        reachable_at(grid, min_run, max_run, from, cost),
        is_move(grid, min_run, max_run, from, to),
    ensures
        reachable_at(grid, min_run, max_run, to, cost + move_cost(grid, from, to)),
{
    let path = choose|path: Seq<State>|
        #[trigger] is_path(grid, min_run, max_run, path) && path.last() == from && path_cost(
            grid,
            path,
        ) == cost;
    lemma_path_push(grid, min_run, max_run, path, to);
    assert(path.push(to).last() == to);
}

/// A state in the top-left cell is reachable at no cost.
pub proof fn lemma_reachable_start(grid: Seq<Seq<u8>>, min_run: int, max_run: int, start: State)
    requires
        well_formed(grid),
        at_start(start),
    ensures
        reachable_at(grid, min_run, max_run, start, 0),
{
    let path = seq![start];
    assert(is_path(grid, min_run, max_run, path));
    assert(path.last() == start);
}

} // verus!
