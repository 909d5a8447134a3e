use vstd::prelude::*;
use crate::laws::{adjacent, is_walk, walk_cost};
use crate::route::{col_after, is_route, path_cost, row_after, search_outcome, well_formed, Axis};
use crate::streak::{arrives, col_of, drive_cost, is_drive, lemma_drive_is_route, row_of, streak};

verus! {

/// The cells that a sequence of steps from the top-left cell goes through
/// all lie in the grid.
pub open spec fn stays_in(grid: Seq<Seq<u8>>, steps: Seq<(Axis, bool)>) -> bool {
    forall|taken: int|
        0 <= taken <= steps.len() ==> 0 <= #[trigger] row_of(steps.take(taken)) < grid.len() && 0
            <= col_of(steps.take(taken)) < grid[0].len()
}

/// Two steps along one axis of which one goes forward and the other
/// backward.
pub open spec fn opposite(first: (Axis, bool), second: (Axis, bool)) -> bool {
    first.0 == second.0 && first.1 != second.1
}

/// No step of the sequence goes back on the step before it.
pub open spec fn never_turns_back(steps: Seq<(Axis, bool)>) -> bool {
    forall|i: int| 0 <= i < steps.len() - 1 ==> !opposite(#[trigger] steps[i], steps[i + 1])
}

/// The cost of the cells that steps from the cell in row `row` and column
/// `col` enter.
pub open spec fn cost_from(grid: Seq<Seq<u8>>, row: int, col: int, steps: Seq<(Axis, bool)>) -> int
    decreases steps.len(),
{
    if steps.len() == 0 {
        0
    } else {
        cost_from(grid, row, col, steps.drop_last()) + grid[row + row_of(steps)][col + col_of(
            steps,
        )]
    }
}

/// Steps one after the other lead as far as the first and the second
/// together.
proof fn lemma_rows_add(first: Seq<(Axis, bool)>, second: Seq<(Axis, bool)>)
    ensures
        row_of(first + second) == row_of(first) + row_of(second),
        col_of(first + second) == col_of(first) + col_of(second),
    decreases second.len(),
{
    if second.len() == 0 {
        assert(first + second =~= first);
    } else {
        assert((first + second).drop_last() =~= first + second.drop_last());
        lemma_rows_add(first, second.drop_last());
    }
}

/// Steps one after the other cost what the first cost and the second cost
/// from where the first end.
proof fn lemma_costs_add(
    grid: Seq<Seq<u8>>,
    row: int,
    col: int,
    first: Seq<(Axis, bool)>,
    second: Seq<(Axis, bool)>,
)
    ensures
        cost_from(grid, row, col, first + second) == cost_from(grid, row, col, first) + cost_from(
            grid,
            row + row_of(first),
            col + col_of(first),
            second,
        ),
        cost_from(grid, row, col, second) >= 0,
    decreases second.len(),
{
    if second.len() == 0 {
        assert(first + second =~= first);
    } else {
        assert((first + second).drop_last() =~= first + second.drop_last());
        lemma_costs_add(grid, row, col, first, second.drop_last());
        lemma_rows_add(first, second);
    }
}

/// No steps cost less than nothing.
proof fn lemma_cost_not_negative(grid: Seq<Seq<u8>>, row: int, col: int, steps: Seq<(Axis, bool)>)
    ensures
        cost_from(grid, row, col, steps) >= 0,
    decreases steps.len(),
{
    if steps.len() > 0 {
        lemma_cost_not_negative(grid, row, col, steps.drop_last());
    }
}

/// The cost of a drive is the cost of its steps from the top-left cell.
proof fn lemma_drive_cost(grid: Seq<Seq<u8>>, steps: Seq<(Axis, bool)>)
    ensures
        drive_cost(grid, steps) == cost_from(grid, 0, 0, steps),
    decreases steps.len(),
{
    if steps.len() > 0 {
        lemma_drive_cost(grid, steps.drop_last());
    }
}

/// A step and the step back lead nowhere.
proof fn lemma_there_and_back(there: (Axis, bool), back: (Axis, bool))
    requires
        opposite(there, back),
    ensures
        row_of(seq![there, back]) == 0,
        col_of(seq![there, back]) == 0,
{
    let both = seq![there, back];
    let one = seq![there];
    assert(both.drop_last() =~= one);
    assert(one.drop_last() =~= Seq::<(Axis, bool)>::empty());
    assert(both.last() == back);
    assert(one.last() == there);
    assert(row_of(one.drop_last()) == 0);
    assert(col_of(one.drop_last()) == 0);
    assert(row_of(one) == row_after(0, there.0, there.1, 1));
    assert(col_of(one) == col_after(0, there.0, there.1, 1));
    assert(row_of(both) == row_after(row_of(one), back.0, back.1, 1));
    assert(col_of(both) == col_after(col_of(one), back.0, back.1, 1));
}

/// Steps without a step and the step back that follows it.
pub open spec fn left_out(steps: Seq<(Axis, bool)>, at: int) -> Seq<(Axis, bool)> {
    steps.take(at) + steps.skip(at + 2)
}

/// Without a step and the step back that follows it, steps lead to the
/// same cell.
proof fn lemma_left_out_ends(steps: Seq<(Axis, bool)>, at: int, taken: int)
    requires
        0 <= at < steps.len() - 1,
        opposite(steps[at], steps[at + 1]),
        at <= taken <= steps.len() - 2,
    ensures
        left_out(steps, at).take(taken) == left_out(steps.take(taken + 2), at),
        row_of(left_out(steps, at).take(taken)) == row_of(steps.take(taken + 2)),
        col_of(left_out(steps, at).take(taken)) == col_of(steps.take(taken + 2)),
{
    let head = steps.take(at);
    let back = seq![steps[at], steps[at + 1]];
    let rest = steps.skip(at + 2).take(taken - at);
    assert(left_out(steps, at).take(taken) =~= head + rest);
    assert(left_out(steps.take(taken + 2), at) =~= head + rest);
    assert(steps.take(taken + 2) =~= head + back + rest);
    lemma_there_and_back(steps[at], steps[at + 1]);
    lemma_rows_add(head, back);
    lemma_rows_add(head + back, rest);
    lemma_rows_add(head, rest);
}

/// Without a step and the step back that follows it, steps that stay in
/// the grid stay in the grid.
proof fn lemma_left_out_stays(grid: Seq<Seq<u8>>, steps: Seq<(Axis, bool)>, at: int)
    requires
        stays_in(grid, steps),
        0 <= at < steps.len() - 1,
        opposite(steps[at], steps[at + 1]),
    ensures
        stays_in(grid, left_out(steps, at)),
        row_of(left_out(steps, at)) == row_of(steps),
        col_of(left_out(steps, at)) == col_of(steps),
{
    let shorter = left_out(steps, at);
    assert forall|taken: int| 0 <= taken <= shorter.len() implies 0 <= #[trigger] row_of(
        shorter.take(taken),
    ) < grid.len() && 0 <= col_of(shorter.take(taken)) < grid[0].len() by {
        if taken <= at {
            assert(shorter.take(taken) =~= steps.take(taken));
            assert(0 <= row_of(steps.take(taken)) < grid.len());
        } else {
            lemma_left_out_ends(steps, at, taken);
            assert(0 <= row_of(steps.take(taken + 2)) < grid.len());
        }
    }
    lemma_left_out_ends(steps, at, steps.len() - 2);
    assert(shorter.take(steps.len() - 2) =~= shorter);
    assert(steps.take(steps.len() as int) =~= steps);
}

/// Without a step and the step back that follows it, steps cost no more.
proof fn lemma_left_out_costs(grid: Seq<Seq<u8>>, steps: Seq<(Axis, bool)>, at: int)
    requires
        0 <= at < steps.len() - 1,
        opposite(steps[at], steps[at + 1]),
    ensures
        drive_cost(grid, left_out(steps, at)) <= drive_cost(grid, steps),
{
    let head = steps.take(at);
    let back = seq![steps[at], steps[at + 1]];
    let tail = steps.skip(at + 2);
    assert(steps =~= head + back + tail);
    lemma_there_and_back(steps[at], steps[at + 1]);
    lemma_rows_add(head, back);
    lemma_drive_cost(grid, steps);
    lemma_drive_cost(grid, left_out(steps, at));
    lemma_costs_add(grid, 0, 0, head + back, tail);
    lemma_costs_add(grid, 0, 0, head, back);
    lemma_costs_add(grid, 0, 0, head, tail);
    let whole = cost_from(grid, 0, 0, head + back + tail);
    assert(drive_cost(grid, steps) == whole);
    assert(row_of(head + back) == row_of(head) && col_of(head + back) == col_of(head));
    assert(whole == cost_from(grid, 0, 0, head + back) + cost_from(
        grid,
        row_of(head),
        col_of(head),
        tail,
    ));
    lemma_cost_not_negative(grid, row_of(head), col_of(head), back);
    assert(cost_from(grid, 0, 0, head + back) >= cost_from(grid, 0, 0, head));
    assert(left_out(steps, at) == head + tail);
}

/// For steps that stay in the grid there are steps to the same cell that
/// stay in the grid, never turn back and cost no more: wherever a step goes
/// back on the one before, the two can be left out.
proof fn lemma_without_turning_back(grid: Seq<Seq<u8>>, steps: Seq<(Axis, bool)>) -> (straighter: Seq<
    (Axis, bool),
>)
    requires
        stays_in(grid, steps),
    ensures
        stays_in(grid, straighter),
        never_turns_back(straighter),
        row_of(straighter) == row_of(steps),
        col_of(straighter) == col_of(steps),
        drive_cost(grid, straighter) <= drive_cost(grid, steps),
    decreases steps.len(),
{
    if never_turns_back(steps) {
        steps
    } else {
        let at = choose|i: int| 0 <= i < steps.len() - 1 && opposite(#[trigger] steps[i], steps[i + 1]);
        lemma_left_out_stays(grid, steps, at);
        lemma_left_out_costs(grid, steps, at);
        lemma_without_turning_back(grid, left_out(steps, at))
    }
}

/// A run of steps in one direction is as long as the way that it has come
/// along its axis.
proof fn lemma_streak_fits(grid: Seq<Seq<u8>>, steps: Seq<(Axis, bool)>)
    requires
        stays_in(grid, steps),
        steps.len() > 0,
    ensures
        streak(steps) >= 1,
        match steps.last().0 {
            Axis::Horizontal => streak(steps) <= grid[0].len() - 1,
            Axis::Vertical => streak(steps) <= grid.len() - 1,
        },
        match steps.last() {
            (Axis::Horizontal, true) => col_of(steps) >= streak(steps),
            (Axis::Horizontal, false) => col_of(steps) <= grid[0].len() - 1 - streak(steps),
            (Axis::Vertical, true) => row_of(steps) >= streak(steps),
            (Axis::Vertical, false) => row_of(steps) <= grid.len() - 1 - streak(steps),
        },
    decreases steps.len(),
{
    let before = steps.drop_last();
    assert(steps.take(steps.len() as int) =~= steps);
    assert(steps.take(steps.len() - 1) =~= before);
    assert(0 <= row_of(steps) < grid.len() && 0 <= col_of(steps) < grid[0].len());
    assert(0 <= row_of(before) < grid.len() && 0 <= col_of(before) < grid[0].len());
    if steps.len() >= 2 && steps[steps.len() - 2] == steps.last() {
        assert forall|taken: int| 0 <= taken <= before.len() implies 0 <= #[trigger] row_of(
            before.take(taken),
        ) < grid.len() && 0 <= col_of(before.take(taken)) < grid[0].len() by {
            assert(before.take(taken) =~= steps.take(taken));
        }
        lemma_streak_fits(grid, before);
        assert(before.last() == steps.last());
    }
}

/// Steps that stay in the grid and never turn back are a drive with runs
/// of any length from one cell on, as long as the greatest length allowed
/// is more than fits in the grid.
proof fn lemma_free_drive(grid: Seq<Seq<u8>>, max_run: int, steps: Seq<(Axis, bool)>)
    requires
        stays_in(grid, steps),
        never_turns_back(steps),
        max_run >= grid.len(),
        max_run >= grid[0].len(),
    ensures
        is_drive(grid, 1, max_run, steps),
    decreases steps.len(),
{
    if steps.len() > 0 {
        let before = steps.drop_last();
        assert(steps.take(steps.len() as int) =~= steps);
        assert(0 <= row_of(steps) < grid.len() && 0 <= col_of(steps) < grid[0].len());
        assert forall|taken: int| 0 <= taken <= before.len() implies 0 <= #[trigger] row_of(
            before.take(taken),
        ) < grid.len() && 0 <= col_of(before.take(taken)) < grid[0].len() by {
            assert(before.take(taken) =~= steps.take(taken));
        }
        assert forall|i: int| 0 <= i < before.len() - 1 implies !opposite(
            #[trigger] before[i],
            before[i + 1],
        ) by {
            assert(!opposite(steps[i], steps[i + 1]));
        }
        lemma_free_drive(grid, max_run, before);
        if before.len() > 0 {
            lemma_streak_fits(grid, before);
            assert(!opposite(steps[steps.len() - 2], steps[steps.len() - 2 + 1]));
            assert(before.last() == steps[steps.len() - 2]);
        }
    }
}

/// The steps that a walk takes from cell to cell: they stay in the grid,
/// end where the walk ends and cost what the walk costs.
proof fn lemma_walk_steps(grid: Seq<Seq<u8>>, walk: Seq<(int, int)>) -> (steps: Seq<(Axis, bool)>)
    requires
        is_walk(grid, walk),
    ensures
        steps.len() == walk.len() - 1,
        stays_in(grid, steps),
        row_of(steps) == walk.last().0,
        col_of(steps) == walk.last().1,
        drive_cost(grid, steps) == walk_cost(grid, walk),
    decreases walk.len(),
{
    if walk.len() == 1 {
        let steps = Seq::<(Axis, bool)>::empty();
        assert forall|taken: int| 0 <= taken <= steps.len() implies 0 <= #[trigger] row_of(
            steps.take(taken),
        ) < grid.len() && 0 <= col_of(steps.take(taken)) < grid[0].len() by {
            assert(steps.take(taken) =~= steps);
            assert(walk[0] == (0int, 0int));
        }
        steps
    } else {
        let shorter = walk.drop_last();
        assert forall|i: int| 0 <= i < shorter.len() implies 0 <= (#[trigger] shorter[i]).0
            < grid.len() && 0 <= shorter[i].1 < grid[0].len() by {
            assert(shorter[i] == walk[i]);
        }
        assert forall|i: int| 0 <= i < shorter.len() - 1 implies adjacent(
            #[trigger] shorter[i],
            shorter[i + 1],
        ) by {
            assert(adjacent(walk[i], walk[i + 1]));
        }
        let before = lemma_walk_steps(grid, shorter);
        let from = shorter.last();
        let to = walk.last();
        assert(adjacent(walk[walk.len() - 2], walk[walk.len() - 2 + 1]));
        let heading = if from.0 == to.0 {
            (Axis::Horizontal, from.1 + 1 == to.1)
        } else {
            (Axis::Vertical, from.0 + 1 == to.0)
        };
        let steps = before.push(heading);
        assert(steps.drop_last() =~= before);
        assert(row_of(steps) == to.0 && col_of(steps) == to.1);
        assert(0 <= walk[walk.len() - 1].0 < grid.len());
        assert forall|taken: int| 0 <= taken <= steps.len() implies 0 <= #[trigger] row_of(
            steps.take(taken),
        ) < grid.len() && 0 <= col_of(steps.take(taken)) < grid[0].len() by {
            if taken <= before.len() {
                assert(steps.take(taken) =~= before.take(taken));
            } else {
                assert(steps.take(taken) =~= steps);
            }
        }
        steps
    }
}

/// With runs of any length from one cell on, the search finds the
/// cheapest way through the grid of all: no walk from the top-left cell to
/// the bottom-right one, from cell to cell with no rule on runs or turns,
/// costs less than what the search returns.
pub proof fn lemma_free_search_is_cheapest_walk(
    grid: Seq<Seq<u8>>,
    max_run: int,
    outcome: Option<u32>,
    walk: Seq<(int, int)>,
)
    requires
        well_formed(grid),
        grid.len() <= usize::MAX,
        grid[0].len() <= usize::MAX,
        max_run >= grid.len(),
        max_run >= grid[0].len(),
        search_outcome(grid, 1, max_run, outcome),
        is_walk(grid, walk),
        walk.last() == (grid.len() - 1, grid[0].len() - 1),
    ensures
        match outcome {
            Some(cost) => cost <= walk_cost(grid, walk),
            None => walk_cost(grid, walk) >= u32::MAX,
        },
{
    let steps = lemma_walk_steps(grid, walk);
    let straighter = lemma_without_turning_back(grid, steps);
    lemma_free_drive(grid, max_run, straighter);
    if straighter.len() > 0 {
        lemma_streak_fits(grid, straighter);
    }
    assert(arrives(grid, 1, max_run, straighter));
    let route = lemma_drive_is_route(grid, 1, max_run, straighter);
    assert(is_route(grid, 1, max_run, route));
    assert(path_cost(grid, route) <= walk_cost(grid, walk));
}

} // verus!
