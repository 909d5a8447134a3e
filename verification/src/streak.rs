use vstd::prelude::*;
use crate::route::{
    col_after, is_move, is_path, is_route, lemma_path_drop_last, lemma_path_facts,
    lemma_path_push, move_cost, move_forward, move_len, path_cost, row_after, run_cost,
    well_formed, Axis, State,
};

verus! {

/// The row that a drive from the top-left cell ends in.
pub open spec fn row_of(steps: Seq<(Axis, bool)>) -> int
    decreases steps.len(),
{
    if steps.len() == 0 {
        0
    } else {
        row_after(row_of(steps.drop_last()), steps.last().0, steps.last().1, 1)
    }
}

/// The column that a drive from the top-left cell ends in.
pub open spec fn col_of(steps: Seq<(Axis, bool)>) -> int
    decreases steps.len(),
{
    if steps.len() == 0 {
        0
    } else {
        col_after(col_of(steps.drop_last()), steps.last().0, steps.last().1, 1)
    }
}

/// The number of steps that a drive has last taken in one direction.
pub open spec fn streak(steps: Seq<(Axis, bool)>) -> int
    decreases steps.len(),
{
    if steps.len() == 0 {
        0
    } else if steps.len() >= 2 && steps[steps.len() - 2] == steps.last() {
        streak(steps.drop_last()) + 1
    } else {
        1
    }
}

/// A drive goes from the top-left cell through the grid step by step, each
/// step to the next cell along an axis, forward or backward. It may go
/// straight on while its streak is shorter than `max_run`, turn to the
/// other axis once its streak is at least `min_run` long, and never turn
/// back.
pub open spec fn is_drive(
    grid: Seq<Seq<u8>>,
    min_run: int,
    max_run: int,
    steps: Seq<(Axis, bool)>,
) -> bool
    decreases steps.len(),
{
    steps.len() == 0 || {
        let before = steps.drop_last();
        &&& is_drive(grid, min_run, max_run, before)
        &&& 0 <= row_of(steps) < grid.len()
        &&& 0 <= col_of(steps) < grid[0].len()
        &&& before.len() == 0 || (steps.last() == before.last() && streak(before) < max_run) || (
        steps.last().0 != before.last().0 && streak(before) >= min_run)
    }
}

/// The cost of a drive: the sum of the costs of the cells that its steps
/// enter.
pub open spec fn drive_cost(grid: Seq<Seq<u8>>, steps: Seq<(Axis, bool)>) -> int
    decreases steps.len(),
{
    if steps.len() == 0 {
        0
    } else {
        drive_cost(grid, steps.drop_last()) + grid[row_of(steps)][col_of(steps)]
    }
}

/// A drive arrives where it ends in the bottom-right cell with a streak of
/// at least `min_run`, or without a step where that cell is the top-left
/// one.
pub open spec fn arrives(
    grid: Seq<Seq<u8>>,
    min_run: int,
    max_run: int,
    steps: Seq<(Axis, bool)>,
) -> bool {
    &&& is_drive(grid, min_run, max_run, steps)
    &&& row_of(steps) == grid.len() - 1
    &&& col_of(steps) == grid[0].len() - 1
    &&& steps.len() == 0 || streak(steps) >= min_run
}

/// A drive that has just turned goes on for `more` steps in its new
/// direction: it stays a drive as long as its streak is no longer than
/// `max_run` and it stays in the grid, and it costs what the run costs
/// more.
proof fn lemma_drive_on(
    grid: Seq<Seq<u8>>,
    min_run: int,
    max_run: int,
    steps: Seq<(Axis, bool)>,
    heading: (Axis, bool),
    more: int,
) -> (longer: Seq<(Axis, bool)>)
    requires
        is_drive(grid, min_run, max_run, steps),
        1 <= more <= max_run,
        steps.len() == 0 || (heading.0 != steps.last().0 && streak(steps) >= min_run),
        forall|k: int|
            1 <= k <= more ==> 0 <= #[trigger] row_after(row_of(steps), heading.0, heading.1, k)
                < grid.len() && 0 <= col_after(col_of(steps), heading.0, heading.1, k)
                < grid[0].len(),
    ensures
        is_drive(grid, min_run, max_run, longer),
        longer.len() == steps.len() + more,
        longer.last() == heading,
        streak(longer) == more,
        row_of(longer) == row_after(row_of(steps), heading.0, heading.1, more),
        col_of(longer) == col_after(col_of(steps), heading.0, heading.1, more),
        drive_cost(grid, longer) == drive_cost(grid, steps) + run_cost(
            grid,
            row_of(steps),
            col_of(steps),
            heading.0,
            heading.1,
            more,
        ),
    decreases more,
{
    let shorter = if more == 1 {
        steps
    } else {
        lemma_drive_on(grid, min_run, max_run, steps, heading, more - 1)
    };
    let longer = shorter.push(heading);
    assert(longer.drop_last() =~= shorter);
    assert(row_after(row_of(steps), heading.0, heading.1, more) == row_after(
        row_after(row_of(steps), heading.0, heading.1, more - 1),
        heading.0,
        heading.1,
        1,
    ));
    assert(col_after(col_of(steps), heading.0, heading.1, more) == col_after(
        col_after(col_of(steps), heading.0, heading.1, more - 1),
        heading.0,
        heading.1,
        1,
    ));
    assert(row_after(row_of(steps), heading.0, heading.1, 0) == row_of(steps));
    assert(col_after(col_of(steps), heading.0, heading.1, 0) == col_of(steps));
    assert(0 <= row_after(row_of(steps), heading.0, heading.1, more) < grid.len());
    if more > 1 {
        assert(longer[longer.len() - 2] == shorter.last());
    } else if steps.len() > 0 {
        assert(longer[longer.len() - 2] == steps.last());
    }
    assert(row_of(longer) == row_after(row_of(shorter), heading.0, heading.1, 1));
    assert(col_of(longer) == col_after(col_of(shorter), heading.0, heading.1, 1));
    assert(row_of(longer) == row_after(row_of(steps), heading.0, heading.1, more));
    assert(col_of(longer) == col_after(col_of(steps), heading.0, heading.1, more));
    assert(drive_cost(grid, longer) == drive_cost(grid, shorter) + grid[row_of(longer)][col_of(
        longer,
    )]);
    assert(run_cost(grid, row_of(steps), col_of(steps), heading.0, heading.1, more) == run_cost(
        grid,
        row_of(steps),
        col_of(steps),
        heading.0,
        heading.1,
        more - 1,
    ) + grid[row_after(row_of(steps), heading.0, heading.1, more)][col_after(
        col_of(steps),
        heading.0,
        heading.1,
        more,
    )]);
    longer
}

/// Step by step every path is a drive to the same cell at the same cost.
/// Where the path makes a move, the drive ends with a streak as long as
/// the last move, along the axis of that move.
pub proof fn lemma_path_is_drive(
    grid: Seq<Seq<u8>>,
    min_run: int,
    max_run: int,
    path: Seq<State>,
) -> (steps: Seq<(Axis, bool)>)
    requires
        well_formed(grid),
        1 <= min_run <= max_run,
        is_path(grid, min_run, max_run, path),
    ensures
        is_drive(grid, min_run, max_run, steps),
        row_of(steps) == path.last().row,
        col_of(steps) == path.last().col,
        drive_cost(grid, steps) == path_cost(grid, path),
        path.len() == 1 ==> steps.len() == 0,
        path.len() >= 2 ==> steps.len() > 0 && steps.last().0 == path.last().axis && min_run
            <= streak(steps) <= max_run,
    decreases path.len(),
{
    if path.len() == 1 {
        Seq::empty()
    } else {
        lemma_path_drop_last(grid, min_run, max_run, path);
        let before = lemma_path_is_drive(grid, min_run, max_run, path.drop_last());
        let from = path.drop_last().last();
        let to = path.last();
        lemma_path_facts(grid, min_run, max_run, path.drop_last());
        let heading = (to.axis, move_forward(from, to));
        if path.len() >= 3 {
            lemma_path_drop_last(grid, min_run, max_run, path.drop_last());
        }
        lemma_drive_on(grid, min_run, max_run, before, heading, move_len(from, to))
    }
}

/// What a drive with a step has behind it: a path, and a straight run from
/// the end of the path that turns away from the last move of the path.
pub open spec fn path_and_run(
    grid: Seq<Seq<u8>>,
    min_run: int,
    max_run: int,
    steps: Seq<(Axis, bool)>,
    path: Seq<State>,
) -> bool {
    &&& is_path(grid, min_run, max_run, path)
    &&& steps.len() > 0
    &&& path.last().axis != steps.last().0
    &&& 1 <= streak(steps) <= max_run
    &&& row_of(steps) == row_after(
        path.last().row as int,
        steps.last().0,
        steps.last().1,
        streak(steps),
    )
    &&& col_of(steps) == col_after(
        path.last().col as int,
        steps.last().0,
        steps.last().1,
        streak(steps),
    )
    &&& forall|k: int|
        1 <= k <= streak(steps) ==> 0 <= #[trigger] row_after(
            path.last().row as int,
            steps.last().0,
            steps.last().1,
            k,
        ) < grid.len() && 0 <= col_after(
            path.last().col as int,
            steps.last().0,
            steps.last().1,
            k,
        ) < grid[0].len()
    &&& drive_cost(grid, steps) == path_cost(grid, path) + run_cost(
        grid,
        path.last().row as int,
        path.last().col as int,
        steps.last().0,
        steps.last().1,
        streak(steps),
    )
}

/// The state at the end of the run of a drive.
pub open spec fn end_of(steps: Seq<(Axis, bool)>) -> State {
    State { row: row_of(steps) as usize, col: col_of(steps) as usize, axis: steps.last().0 }
}

/// A run of at least `min_run` steps from the end of a path is a move.
proof fn lemma_run_is_move(
    grid: Seq<Seq<u8>>,
    min_run: int,
    max_run: int,
    steps: Seq<(Axis, bool)>,
    path: Seq<State>,
)
    requires
        well_formed(grid),
        grid.len() <= usize::MAX,
        grid[0].len() <= usize::MAX,
        1 <= min_run <= max_run,
        path_and_run(grid, min_run, max_run, steps, path),
        streak(steps) >= min_run,
    ensures
        is_move(grid, min_run, max_run, path.last(), end_of(steps)),
        move_cost(grid, path.last(), end_of(steps)) == run_cost(
            grid,
            path.last().row as int,
            path.last().col as int,
            steps.last().0,
            steps.last().1,
            streak(steps),
        ),
        is_path(grid, min_run, max_run, path.push(end_of(steps))),
        path_cost(grid, path.push(end_of(steps))) == drive_cost(grid, steps),
{
    let from = path.last();
    let to = end_of(steps);
    let run = streak(steps);
    lemma_path_facts(grid, min_run, max_run, path);
    assert(0 <= row_after(from.row as int, steps.last().0, steps.last().1, run) < grid.len() && 0
        <= col_after(from.col as int, steps.last().0, steps.last().1, run) < grid[0].len());
    assert(to.row == row_of(steps) && to.col == col_of(steps));
    assert(move_len(from, to) == run);
    assert(move_forward(from, to) == steps.last().1);
    lemma_path_push(grid, min_run, max_run, path, to);
}

/// A first step, or a step after a turn, begins a run from the end of a
/// path.
proof fn lemma_run_begins(
    grid: Seq<Seq<u8>>,
    min_run: int,
    max_run: int,
    steps: Seq<(Axis, bool)>,
    path: Seq<State>,
)
    requires
        well_formed(grid),
        1 <= min_run <= max_run,
        is_drive(grid, min_run, max_run, steps),
        steps.len() > 0,
        steps.len() == 1 || steps[steps.len() - 2] != steps.last(),
        is_path(grid, min_run, max_run, path),
        path.last().axis != steps.last().0,
        path.last().row == row_of(steps.drop_last()),
        path.last().col == col_of(steps.drop_last()),
        path_cost(grid, path) == drive_cost(grid, steps.drop_last()),
    ensures
        path_and_run(grid, min_run, max_run, steps, path),
{
    let heading = steps.last();
    let from = path.last();
    assert(streak(steps) == 1);
    assert(row_of(steps) == row_after(from.row as int, heading.0, heading.1, 1));
    assert(col_of(steps) == col_after(from.col as int, heading.0, heading.1, 1));
    assert(run_cost(grid, from.row as int, from.col as int, heading.0, heading.1, 0) == 0);
    assert(run_cost(grid, from.row as int, from.col as int, heading.0, heading.1, 1)
        == grid[row_of(steps)][col_of(steps)]);
}

/// A step straight on makes the run one step longer.
proof fn lemma_run_goes_on(
    grid: Seq<Seq<u8>>,
    min_run: int,
    max_run: int,
    steps: Seq<(Axis, bool)>,
    path: Seq<State>,
)
    requires
        well_formed(grid),
        1 <= min_run <= max_run,
        is_drive(grid, min_run, max_run, steps),
        steps.len() >= 2,
        steps[steps.len() - 2] == steps.last(),
        streak(steps.drop_last()) < max_run,
        path_and_run(grid, min_run, max_run, steps.drop_last(), path),
    ensures
        path_and_run(grid, min_run, max_run, steps, path),
{
    let before = steps.drop_last();
    let heading = steps.last();
    let from = path.last();
    let run = streak(before);
    assert(before.last() == heading);
    assert(streak(steps) == run + 1);
    assert(row_of(steps) == row_after(row_of(before), heading.0, heading.1, 1));
    assert(col_of(steps) == col_after(col_of(before), heading.0, heading.1, 1));
    assert(row_of(steps) == row_after(from.row as int, heading.0, heading.1, run + 1));
    assert(col_of(steps) == col_after(from.col as int, heading.0, heading.1, run + 1));
    assert forall|k: int| 1 <= k <= run + 1 implies 0 <= #[trigger] row_after(
        from.row as int,
        heading.0,
        heading.1,
        k,
    ) < grid.len() && 0 <= col_after(from.col as int, heading.0, heading.1, k)
        < grid[0].len() by {
        if k <= run {
            assert(0 <= row_after(from.row as int, before.last().0, before.last().1, k)
                < grid.len());
        }
    }
    assert(run_cost(grid, from.row as int, from.col as int, heading.0, heading.1, run + 1)
        == run_cost(grid, from.row as int, from.col as int, heading.0, heading.1, run)
        + grid[row_of(steps)][col_of(steps)]);
}

/// Every drive with a step has a path and a run behind it.
pub proof fn lemma_drive_has_path(
    grid: Seq<Seq<u8>>,
    min_run: int,
    max_run: int,
    steps: Seq<(Axis, bool)>,
) -> (path: Seq<State>)
    requires
        well_formed(grid),
        grid.len() <= usize::MAX,
        grid[0].len() <= usize::MAX,
        1 <= min_run <= max_run,
        is_drive(grid, min_run, max_run, steps),
        steps.len() > 0,
    ensures
        path_and_run(grid, min_run, max_run, steps, path),
    decreases steps.len(),
{
    let before = steps.drop_last();
    let heading = steps.last();
    if before.len() == 0 {
        let start = State { row: 0, col: 0, axis: heading.0.spec_perpendicular() };
        let path = seq![start];
        assert(is_path(grid, min_run, max_run, path));
        assert(path_cost(grid, path) == 0);
        lemma_run_begins(grid, min_run, max_run, steps, path);
        path
    } else {
        let behind = lemma_drive_has_path(grid, min_run, max_run, before);
        assert(steps[steps.len() - 2] == before.last());
        if heading == before.last() {
            lemma_run_goes_on(grid, min_run, max_run, steps, behind);
            behind
        } else {
            lemma_run_is_move(grid, min_run, max_run, before, behind);
            let path = behind.push(end_of(before));
            assert(path.last() == end_of(before));
            lemma_run_begins(grid, min_run, max_run, steps, path);
            path
        }
    }
}

/// Whatever a drive that arrives costs, a route costs.
pub proof fn lemma_drive_is_route(
    grid: Seq<Seq<u8>>,
    min_run: int,
    max_run: int,
    steps: Seq<(Axis, bool)>,
) -> (route: Seq<State>)
    requires
        well_formed(grid),
        grid.len() <= usize::MAX,
        grid[0].len() <= usize::MAX,
        1 <= min_run <= max_run,
        arrives(grid, min_run, max_run, steps),
    ensures
        is_route(grid, min_run, max_run, route),
        path_cost(grid, route) == drive_cost(grid, steps),
{
    if steps.len() == 0 {
        let start = State { row: 0, col: 0, axis: Axis::Horizontal };
        let route = seq![start];
        assert(is_route(grid, min_run, max_run, route));
        assert(path_cost(grid, route) == 0);
        route
    } else {
        let behind = lemma_drive_has_path(grid, min_run, max_run, steps);
        lemma_run_is_move(grid, min_run, max_run, steps, behind);
        let route = behind.push(end_of(steps));
        assert(route.last() == end_of(steps));
        route
    }
}

/// The search by runs and the search by single steps look at the same
/// routes: whatever a route costs, a drive that arrives costs, and the
/// other way round. So the cheapest route costs what the cheapest drive
/// that arrives costs, also where the last run is as short as a run may
/// be.
pub proof fn lemma_runs_and_steps_agree(
    grid: Seq<Seq<u8>>,
    min_run: int,
    max_run: int,
    cost: int,
)
    requires
        well_formed(grid),
        grid.len() <= usize::MAX,
        grid[0].len() <= usize::MAX,
        1 <= min_run <= max_run,
    ensures
        (exists|route: Seq<State>| #[trigger]
            is_route(grid, min_run, max_run, route) && path_cost(grid, route) == cost) <==> (
        exists|steps: Seq<(Axis, bool)>| #[trigger]
            arrives(grid, min_run, max_run, steps) && drive_cost(grid, steps) == cost),
{
    if exists|route: Seq<State>| #[trigger]
        is_route(grid, min_run, max_run, route) && path_cost(grid, route) == cost {
        let route = choose|route: Seq<State>| #[trigger]
            is_route(grid, min_run, max_run, route) && path_cost(grid, route) == cost;
        let steps = lemma_path_is_drive(grid, min_run, max_run, route);
        assert(arrives(grid, min_run, max_run, steps));
    }
    if exists|steps: Seq<(Axis, bool)>| #[trigger]
        arrives(grid, min_run, max_run, steps) && drive_cost(grid, steps) == cost {
        let steps = choose|steps: Seq<(Axis, bool)>| #[trigger]
            arrives(grid, min_run, max_run, steps) && drive_cost(grid, steps) == cost;
        let route = lemma_drive_is_route(grid, min_run, max_run, steps);
        assert(is_route(grid, min_run, max_run, route) && path_cost(grid, route) == cost);
    }
}

} // verus!
