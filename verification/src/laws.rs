use vstd::prelude::*;
use crate::route::{
    at_start, at_target, col_after, is_move, is_path, is_route, lemma_path_drop_last,
    lemma_path_facts, move_forward, move_len, path_cost, row_after, run_cost,
    search_outcome, well_formed, Axis, State,
};

verus! {

/// A path under one pair of run limits is a path under any pair that admits
/// every one of its moves.
proof fn lemma_path_under_wider_limits(
    grid: Seq<Seq<u8>>,
    min_run: int,
    max_run: int,
    wider_min: int,
    wider_max: int,
    path: Seq<State>,
)
    requires
        is_path(grid, min_run, max_run, path),
        forall|from: State, to: State| #[trigger]
            is_move(grid, min_run, max_run, from, to) ==> is_move(
                grid,
                wider_min,
                wider_max,
                from,
                to,
            ),
    ensures
        is_path(grid, wider_min, wider_max, path),
{
    assert forall|i: int| 0 <= i < path.len() - 1 implies is_move(
        grid,
        wider_min,
        wider_max,
        #[trigger] path[i],
        path[i + 1],
    ) by {
        assert(is_move(grid, min_run, max_run, path[i], path[i + 1]));
    }
}

/// Where wider limits admit every move of narrower ones, a search under the
/// wider limits finds a route whenever one under the narrower limits does,
/// and at no higher cost.
proof fn lemma_wider_limits_no_dearer(
    grid: Seq<Seq<u8>>,
    min_run: int,
    max_run: int,
    wider_min: int,
    wider_max: int,
    narrow: Option<u32>,
    wide: Option<u32>,
)
    requires
        forall|from: State, to: State| #[trigger]
            is_move(grid, min_run, max_run, from, to) ==> is_move(
                grid,
                wider_min,
                wider_max,
                from,
                to,
            ),
        search_outcome(grid, min_run, max_run, narrow),
        search_outcome(grid, wider_min, wider_max, wide),
    ensures
        narrow matches Some(cost) ==> wide matches Some(less) && less <= cost,
{
    if let Some(cost) = narrow {
        let route = choose|route: Seq<State>|
            #[trigger] is_route(grid, min_run, max_run, route) && path_cost(grid, route) == cost;
        lemma_path_under_wider_limits(grid, min_run, max_run, wider_min, wider_max, route);
        assert(is_route(grid, wider_min, wider_max, route));
    }
}

/// Under any run limits the search returns no less than it returns on the
/// same grid with runs of 1 to `height * width` cells, which leaves the
/// length of a run free.
pub proof fn lemma_constrained_no_cheaper_than_free(
    grid: Seq<Seq<u8>>,
    min_run: int,
    max_run: int,
    constrained: Option<u32>,
    free: Option<u32>,
)
    requires
        well_formed(grid),
        1 <= min_run <= max_run,
        search_outcome(grid, min_run, max_run, constrained),
        search_outcome(grid, 1, (grid.len() * grid[0].len()) as int, free),
    ensures
        constrained matches Some(cost) ==> free matches Some(least) && least <= cost,
{
    let height = grid.len() as int;
    let width = grid[0].len() as int;
    assert(height * width >= height && height * width >= width) by (nonlinear_arith)
        requires
            height >= 1,
            width >= 1,
    ;
    assert forall|from: State, to: State| #[trigger]
        is_move(grid, min_run, max_run, from, to) implies is_move(
        grid,
        1,
        height * width,
        from,
        to,
    ) by {
        assert(move_len(from, to) < height || move_len(from, to) < width);
    }
    lemma_wider_limits_no_dearer(grid, min_run, max_run, 1, height * width, constrained, free);
}

/// Two searches of one grid under the same run limits give the same answer.
pub proof fn lemma_outcome_unique(
    grid: Seq<Seq<u8>>,
    min_run: int,
    max_run: int,
    first: Option<u32>,
    second: Option<u32>,
)
    requires
        search_outcome(grid, min_run, max_run, first),
        search_outcome(grid, min_run, max_run, second),
    ensures
        first == second,
{
    if let Some(cost) = first {
        let route = choose|route: Seq<State>|
            #[trigger] is_route(grid, min_run, max_run, route) && path_cost(grid, route) == cost;
        assert(is_route(grid, min_run, max_run, route));
    }
    if let Some(cost) = second {
        let route = choose|route: Seq<State>|
            #[trigger] is_route(grid, min_run, max_run, route) && path_cost(grid, route) == cost;
        assert(is_route(grid, min_run, max_run, route));
    }
}

/// On a grid of a single cell the start is the target: the route without a
/// move costs nothing, and the search returns 0 under any run limits.
pub proof fn lemma_single_cell_costs_nothing(
    grid: Seq<Seq<u8>>,
    min_run: int,
    max_run: int,
    outcome: Option<u32>,
)
    requires
        well_formed(grid),
        grid.len() == 1,
        grid[0].len() == 1,
        search_outcome(grid, min_run, max_run, outcome),
    ensures
        outcome == Some(0u32),
{
    let start = State { row: 0, col: 0, axis: Axis::Horizontal };
    let stay = seq![start];
    assert(is_route(grid, min_run, max_run, stay));
    assert(path_cost(grid, stay) == 0);
    if let Some(cost) = outcome {
        let route = choose|route: Seq<State>|
            #[trigger] is_route(grid, min_run, max_run, route) && path_cost(grid, route) == cost;
        lemma_path_facts(grid, min_run, max_run, route);
    }
}

/// For a fixed least run, a larger greatest run never makes the answer
/// dearer: where the search finds a route under `max_run`, it finds one
/// under `longer_max` at no higher cost.
pub proof fn lemma_longer_runs_no_dearer(
    grid: Seq<Seq<u8>>,
    min_run: int,
    max_run: int,
    longer_max: int,
    shorter: Option<u32>,
    longer: Option<u32>,
)
    requires
        max_run <= longer_max,
        search_outcome(grid, min_run, max_run, shorter),
        search_outcome(grid, min_run, longer_max, longer),
    ensures
        shorter matches Some(cost) ==> longer matches Some(less) && less <= cost,
{
    lemma_wider_limits_no_dearer(grid, min_run, max_run, min_run, longer_max, shorter, longer);
}

/// On a grid with fewer than `min_run` rows and fewer than `min_run`
/// columns no run fits, so no path makes a move. Unless the grid is a single
/// cell, there is then no route, and the search returns `None`.
pub proof fn lemma_narrow_grid_unreachable(
    grid: Seq<Seq<u8>>,
    min_run: int,
    max_run: int,
    outcome: Option<u32>,
)
    requires
        well_formed(grid),
        grid.len() < min_run,
        grid[0].len() < min_run,
        grid.len() > 1 || grid[0].len() > 1,
        search_outcome(grid, min_run, max_run, outcome),
    ensures
        outcome is None,
{
    if let Some(cost) = outcome {
        let route = choose|route: Seq<State>|
            #[trigger] is_route(grid, min_run, max_run, route) && path_cost(grid, route) == cost;
        if route.len() >= 2 {
            assert(is_move(grid, min_run, max_run, route[0], route[1]));
        } else {
            assert(at_start(route[0]));
            assert(at_target(grid, route.last()));
        }
    }
}

/// Two cells that share a side.
pub open spec fn adjacent(from: (int, int), to: (int, int)) -> bool {
    ||| from.0 == to.0 && (from.1 + 1 == to.1 || to.1 + 1 == from.1)
    ||| from.1 == to.1 && (from.0 + 1 == to.0 || to.0 + 1 == from.0)
}

/// A walk goes from the top-left cell through the grid, from each cell to
/// one that shares a side with it, with no rule on runs or turns.
pub open spec fn is_walk(grid: Seq<Seq<u8>>, walk: Seq<(int, int)>) -> bool {
    &&& walk.len() >= 1
    &&& walk[0] == (0int, 0int)
    &&& forall|i: int|
        0 <= i < walk.len() ==> 0 <= (#[trigger] walk[i]).0 < grid.len() && 0 <= walk[i].1
            < grid[0].len()
    &&& forall|i: int| 0 <= i < walk.len() - 1 ==> adjacent(#[trigger] walk[i], walk[i + 1])
}

/// The cost of a walk: the sum of the costs of the cells it enters.
pub open spec fn walk_cost(grid: Seq<Seq<u8>>, walk: Seq<(int, int)>) -> int
    decreases walk.len(),
{
    if walk.len() <= 1 {
        0
    } else {
        walk_cost(grid, walk.drop_last()) + grid[walk.last().0][walk.last().1]
    }
}

/// Cell by cell a straight run is a walk: a walk that ends where the run
/// begins goes on along the run, at the cost of the run on top.
proof fn lemma_run_is_walk(
    grid: Seq<Seq<u8>>,
    walk: Seq<(int, int)>,
    axis: Axis,
    forward: bool,
    steps: int,
) -> (longer: Seq<(int, int)>)
    requires
        is_walk(grid, walk),
        0 <= steps,
        forall|k: int|
            1 <= k <= steps ==> 0 <= #[trigger] row_after(walk.last().0, axis, forward, k)
                < grid.len() && 0 <= col_after(walk.last().1, axis, forward, k) < grid[0].len(),
    ensures
        is_walk(grid, longer),
        longer.last() == (
            row_after(walk.last().0, axis, forward, steps),
            col_after(walk.last().1, axis, forward, steps),
        ),
        walk_cost(grid, longer) == walk_cost(grid, walk) + run_cost(
            grid,
            walk.last().0,
            walk.last().1,
            axis,
            forward,
            steps,
        ),
    decreases steps,
{
    if steps == 0 {
        walk
    } else {
        let shorter = lemma_run_is_walk(grid, walk, axis, forward, steps - 1);
        let cell = (
            row_after(walk.last().0, axis, forward, steps),
            col_after(walk.last().1, axis, forward, steps),
        );
        let longer = shorter.push(cell);
        assert(longer.drop_last() =~= shorter);
        assert(row_after(walk.last().0, axis, forward, steps) == cell.0);
        assert forall|i: int| 0 <= i < longer.len() implies 0 <= (#[trigger] longer[i]).0
            < grid.len() && 0 <= longer[i].1 < grid[0].len() by {
            if i < shorter.len() {
                assert(longer[i] == shorter[i]);
            }
        }
        assert forall|i: int| 0 <= i < longer.len() - 1 implies adjacent(
            #[trigger] longer[i],
            longer[i + 1],
        ) by {
            if i < shorter.len() - 1 {
                assert(adjacent(shorter[i], shorter[i + 1]));
            } else {
                assert(longer[i] == shorter.last());
            }
        }
        longer
    }
}

/// Cell by cell every path is a walk to the same cell at the same cost.
pub proof fn lemma_path_is_walk(
    grid: Seq<Seq<u8>>,
    min_run: int,
    max_run: int,
    path: Seq<State>,
) -> (walk: Seq<(int, int)>)
    requires
        well_formed(grid),
        is_path(grid, min_run, max_run, path),
    ensures
        is_walk(grid, walk),
        walk.last() == (path.last().row as int, path.last().col as int),
        walk_cost(grid, walk) == path_cost(grid, path),
    decreases path.len(),
{
    if path.len() == 1 {
        let walk = seq![(0int, 0int)];
        assert(walk[0] == (0int, 0int));
        walk
    } else {
        lemma_path_drop_last(grid, min_run, max_run, path);
        let before = lemma_path_is_walk(grid, min_run, max_run, path.drop_last());
        let from = path.drop_last().last();
        let to = path.last();
        lemma_path_facts(grid, min_run, max_run, path.drop_last());
        lemma_run_is_walk(grid, before, to.axis, move_forward(from, to), move_len(from, to))
    }
}

/// The search returns no less than the cost of the cheapest walk through the
/// grid from the top-left cell to the bottom-right one: whatever it
/// returns is the cost of such a walk.
pub proof fn lemma_outcome_is_cost_of_a_walk(
    grid: Seq<Seq<u8>>,
    min_run: int,
    max_run: int,
    outcome: Option<u32>,
)
    requires
        well_formed(grid),
        search_outcome(grid, min_run, max_run, outcome),
    ensures
        outcome matches Some(cost) ==> exists|walk: Seq<(int, int)>| #[trigger]
            is_walk(grid, walk) && walk.last() == (grid.len() - 1, grid[0].len() - 1) && walk_cost(
                grid,
                walk,
            ) == cost,
{
    if let Some(cost) = outcome {
        let route = choose|route: Seq<State>|
            #[trigger] is_route(grid, min_run, max_run, route) && path_cost(grid, route) == cost;
        let walk = lemma_path_is_walk(grid, min_run, max_run, route);
        assert(is_walk(grid, walk));
    }
}

} // verus!
