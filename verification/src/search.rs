use vstd::prelude::*;
use crate::bucket_queue::FixedPriorityQueue;
use crate::distance::{dist_of, distance, set_distance, table_fits, table_total, unreached_table, UNREACHED};
use crate::route::{
    at_start, at_target, cells, col_after, in_grid, is_cheapest, is_move, is_path, is_route,
    lemma_move_cost_bounds, lemma_path_drop_last, lemma_path_facts, lemma_reachable_start,
    lemma_reachable_step, move_cost, move_forward, move_len, path_cost,
    reachable_at, row_after, run_cost, search_outcome, well_formed, Axis, State,
};

verus! {

/// The longest run whose cost, at 9 a cell, stays below the value that
/// stands for "not reached".
const MOST_CELLS: usize = 477218588;

/// Both states of the top-left cell are known to cost nothing.
spec fn starts_free(table: Seq<Vec<[u32; 2]>>) -> bool {
    forall|start: State| at_start(start) ==> #[trigger] dist_of(table, start) == 0
}

/// Every cost in the table is the cost of some path to its state.
spec fn sound(grid: Seq<Seq<u8>>, min_run: int, max_run: int, table: Seq<Vec<[u32; 2]>>) -> bool {
    forall|state: State|
        in_grid(grid, state) && #[trigger] dist_of(table, state) < UNREACHED ==> reachable_at(
            grid,
            min_run,
            max_run,
            state,
            dist_of(table, state),
        )
}

/// No move out of a finished state can lower a cost in the table.
spec fn closed_under_moves(
    grid: Seq<Seq<u8>>,
    min_run: int,
    max_run: int,
    table: Seq<Vec<[u32; 2]>>,
    done: Set<State>,
) -> bool {
    forall|from: State, to: State|
        done.contains(from) && #[trigger] is_move(grid, min_run, max_run, from, to) ==> dist_of(
            table,
            to,
        ) <= dist_of(table, from) + move_cost(grid, from, to)
}

/// Finished states lie in the grid, short of the target, at costs that the
/// queue has reached.
spec fn finished_behind(
    grid: Seq<Seq<u8>>,
    table: Seq<Vec<[u32; 2]>>,
    done: Set<State>,
    base: int,
) -> bool {
    forall|state: State| #[trigger]
        done.contains(state) ==> in_grid(grid, state) && !at_target(grid, state) && dist_of(
            table,
            state,
        ) <= base
}

/// Every reached state that is neither finished nor in hand is pending at
/// its cost.
spec fn reached_are_pending(
    grid: Seq<Seq<u8>>,
    table: Seq<Vec<[u32; 2]>>,
    queue: FixedPriorityQueue<State>,
    done: Set<State>,
    in_hand: Option<State>,
) -> bool {
    forall|state: State|
        in_grid(grid, state) && !done.contains(state) && in_hand != Some(state)
            && #[trigger] dist_of(table, state) < UNREACHED ==> queue.pending(
            dist_of(table, state),
        ).contains(state)
}

/// Every pending item is a state of the grid, pending at a cost that is a
/// real cost and no less than the best known for it.
spec fn pending_are_states(
    grid: Seq<Seq<u8>>,
    table: Seq<Vec<[u32; 2]>>,
    queue: FixedPriorityQueue<State>,
) -> bool {
    forall|priority: int, i: int|
        0 <= i < queue.pending(priority).len() ==> {
            &&& in_grid(grid, #[trigger] queue.pending(priority)[i])
            &&& priority < UNREACHED
            &&& dist_of(table, queue.pending(priority)[i]) <= priority
        }
}

/// What holds between two steps of the search.
spec fn search_inv(
    grid: Seq<Seq<u8>>,
    min_run: int,
    max_run: int,
    table: Seq<Vec<[u32; 2]>>,
    queue: FixedPriorityQueue<State>,
    done: Set<State>,
    in_hand: Option<State>,
) -> bool {
    &&& well_formed(grid)
    &&& 1 <= min_run <= max_run
    &&& queue.wf()
    &&& table_fits(grid, table)
    &&& starts_free(table)
    &&& sound(grid, min_run, max_run, table)
    &&& closed_under_moves(grid, min_run, max_run, table, done)
    &&& finished_behind(grid, table, done, queue.base() as int)
    &&& reached_are_pending(grid, table, queue, done, in_hand)
    &&& pending_are_states(grid, table, queue)
}

/// Along any path, either the table already knows a cost no larger than the
/// path's, or the path costs at least `bound`, below which every unfinished
/// state is known not to lie.
proof fn lemma_lower_bound(
    grid: Seq<Seq<u8>>,
    min_run: int,
    max_run: int,
    table: Seq<Vec<[u32; 2]>>,
    done: Set<State>,
    bound: int,
    path: Seq<State>,
)
    requires
        well_formed(grid),
        starts_free(table),
        closed_under_moves(grid, min_run, max_run, table, done),
        forall|state: State|
            in_grid(grid, state) && !done.contains(state) ==> #[trigger] dist_of(table, state)
                >= bound,
        is_path(grid, min_run, max_run, path),
    ensures
        dist_of(table, path.last()) <= path_cost(grid, path) || path_cost(grid, path) >= bound,
    decreases path.len(),
{
    if path.len() == 1 {
        assert(at_start(path[0]));
        assert(dist_of(table, path[0]) == 0);
    } else {
        let shorter = path.drop_last();
        let from = shorter.last();
        let to = path.last();
        lemma_path_drop_last(grid, min_run, max_run, path);
        lemma_lower_bound(grid, min_run, max_run, table, done, bound, shorter);
        lemma_path_facts(grid, min_run, max_run, shorter);
        lemma_move_cost_bounds(grid, min_run, max_run, from, to);
        if path_cost(grid, shorter) < bound {
            assert(dist_of(table, from) < bound);
            assert(done.contains(from));
            assert(is_move(grid, min_run, max_run, from, to));
        }
    }
}

/// A longer run along the same line costs no less than a shorter one.
proof fn lemma_run_cost_grows(
    grid: Seq<Seq<u8>>,
    row: int,
    col: int,
    axis: Axis,
    forward: bool,
    shorter: int,
    longer: int,
)
    requires
        0 <= shorter <= longer,
    ensures
        run_cost(grid, row, col, axis, forward, shorter) <= run_cost(
            grid,
            row,
            col,
            axis,
            forward,
            longer,
        ),
    decreases longer - shorter,
{
    if shorter < longer {
        lemma_run_cost_grows(grid, row, col, axis, forward, shorter, longer - 1);
    }
}

/// Taking the least pending item out of the queue keeps the invariant, with
/// that item in hand. Where the table already knows a lower cost for it, the
/// item was stale and nothing is in hand.
proof fn lemma_after_pop(
    grid: Seq<Seq<u8>>,
    min_run: int,
    max_run: int,
    table: Seq<Vec<[u32; 2]>>,
    before: FixedPriorityQueue<State>,
    after: FixedPriorityQueue<State>,
    done: Set<State>,
    cost: int,
    state: State,
)
    requires
        search_inv(grid, min_run, max_run, table, before, done, None),
        after.wf(),
        before.base() <= cost,
        before.pending(cost).len() > 0,
        state == before.pending(cost).last(),
        after.base() == cost,
        after.pending(cost) == before.pending(cost).drop_last(),
        forall|other: int| other != cost ==> #[trigger] after.pending(other) == before.pending(other),
    ensures
        search_inv(grid, min_run, max_run, table, after, done, Some(state)),
        in_grid(grid, state),
        cost < UNREACHED,
        dist_of(table, state) <= cost,
        dist_of(table, state) < cost ==> search_inv(
            grid,
            min_run,
            max_run,
            table,
            after,
            done,
            None,
        ),
{
    let last = before.pending(cost).len() - 1;
    assert(state == before.pending(cost)[last]);
    assert forall|priority: int, i: int| 0 <= i < after.pending(priority).len() implies {
        &&& in_grid(grid, #[trigger] after.pending(priority)[i])
        &&& priority < UNREACHED
        &&& dist_of(table, after.pending(priority)[i]) <= priority
    } by {
        assert(after.pending(priority)[i] == before.pending(priority)[i]);
    }
    assert forall|other: State|
        in_grid(grid, other) && !done.contains(other) && other != state && #[trigger] dist_of(
            table,
            other,
        ) < UNREACHED implies after.pending(dist_of(table, other)).contains(other) by {
        let at = dist_of(table, other);
        assert(before.pending(at).contains(other));
        let i = choose|i: int| 0 <= i < before.pending(at).len() && before.pending(at)[i] == other;
        if at == cost {
            assert(i != last);
            assert(after.pending(at)[i] == other);
        }
    }
    if dist_of(table, state) < cost {
        let at = dist_of(table, state);
        if in_grid(grid, state) && !done.contains(state) && at < UNREACHED {
            assert(before.pending(at).contains(state));
            assert(after.pending(at) == before.pending(at));
        }
    }
}

/// Lowering the cost of the state at the end of a move out of the state in
/// hand, and queueing that state at its new cost, keeps the invariant.
proof fn lemma_relax(
    grid: Seq<Seq<u8>>,
    min_run: int,
    max_run: int,
    old_table: Seq<Vec<[u32; 2]>>,
    new_table: Seq<Vec<[u32; 2]>>,
    before: FixedPriorityQueue<State>,
    after: FixedPriorityQueue<State>,
    done: Set<State>,
    from: State,
    to: State,
)
    requires
        search_inv(grid, min_run, max_run, old_table, before, done, Some(from)),
        in_grid(grid, from),
        dist_of(old_table, from) == before.base(),
        is_move(grid, min_run, max_run, from, to),
        dist_of(new_table, to) == dist_of(old_table, from) + move_cost(grid, from, to),
        dist_of(new_table, to) < dist_of(old_table, to),
        table_fits(grid, new_table),
        forall|other: State|
            other != to && in_grid(grid, other) ==> #[trigger] dist_of(new_table, other)
                == dist_of(old_table, other),
        after.wf(),
        after.base() == before.base(),
        after.pending(dist_of(new_table, to)) == before.pending(dist_of(new_table, to)).push(to),
        forall|other: int|
            other != dist_of(new_table, to) ==> #[trigger] after.pending(other) == before.pending(
                other,
            ),
    ensures
        search_inv(grid, min_run, max_run, new_table, after, done, Some(from)),
{
    let through = dist_of(new_table, to);
    lemma_move_cost_bounds(grid, min_run, max_run, from, to);
    assert(!done.contains(to));
    assert(to != from);
    assert forall|start: State| at_start(start) implies #[trigger] dist_of(new_table, start)
        == 0 by {
        assert(dist_of(old_table, start) == 0);
    }
    assert forall|state: State|
        in_grid(grid, state) && #[trigger] dist_of(new_table, state) < UNREACHED implies reachable_at(
        grid,
        min_run,
        max_run,
        state,
        dist_of(new_table, state),
    ) by {
        if state == to {
            assert(dist_of(old_table, from) < UNREACHED);
            lemma_reachable_step(grid, min_run, max_run, from, dist_of(old_table, from), to);
        } else {
            assert(dist_of(old_table, state) < UNREACHED);
        }
    }
    assert forall|a: State, b: State|
        done.contains(a) && #[trigger] is_move(grid, min_run, max_run, a, b) implies dist_of(
        new_table,
        b,
    ) <= dist_of(new_table, a) + move_cost(grid, a, b) by {
        assert(dist_of(new_table, a) == dist_of(old_table, a));
        assert(dist_of(new_table, b) <= dist_of(old_table, b));
    }
    assert forall|state: State| #[trigger] done.contains(state) implies in_grid(grid, state)
        && !at_target(grid, state) && dist_of(new_table, state) <= after.base() by {
        assert(dist_of(new_table, state) == dist_of(old_table, state));
    }
    assert forall|state: State|
        in_grid(grid, state) && !done.contains(state) && Some(from) != Some(state)
            && #[trigger] dist_of(new_table, state) < UNREACHED implies after.pending(
        dist_of(new_table, state),
    ).contains(state) by {
        let at = dist_of(new_table, state);
        if state == to {
            let n = before.pending(through).len() as int;
            assert(after.pending(through)[n] == to);
        } else {
            assert(dist_of(old_table, state) == at);
            assert(before.pending(at).contains(state));
            let i = choose|i: int| 0 <= i < before.pending(at).len() && before.pending(at)[i] == state;
            assert(after.pending(at)[i] == state);
        }
    }
    assert forall|priority: int, i: int| 0 <= i < after.pending(priority).len() implies {
        &&& in_grid(grid, #[trigger] after.pending(priority)[i])
        &&& priority < UNREACHED
        &&& dist_of(new_table, after.pending(priority)[i]) <= priority
    } by {
        let item = after.pending(priority)[i];
        if priority == through && i == before.pending(through).len() {
            assert(item == to);
        } else {
            assert(item == before.pending(priority)[i]);
            assert(in_grid(grid, item));
            assert(dist_of(new_table, item) <= dist_of(old_table, item));
        }
    }
}

/// Once every move out of the state in hand has been tried, that state is
/// finished.
proof fn lemma_settle(
    grid: Seq<Seq<u8>>,
    min_run: int,
    max_run: int,
    table: Seq<Vec<[u32; 2]>>,
    queue: FixedPriorityQueue<State>,
    done: Set<State>,
    state: State,
)
    requires
        search_inv(grid, min_run, max_run, table, queue, done, Some(state)),
        in_grid(grid, state),
        !at_target(grid, state),
        dist_of(table, state) == queue.base(),
        forall|to: State| #[trigger]
            is_move(grid, min_run, max_run, state, to) ==> dist_of(table, to) <= dist_of(
                table,
                state,
            ) + move_cost(grid, state, to),
    ensures
        search_inv(grid, min_run, max_run, table, queue, done.insert(state), None),
{
}

/// When the least pending item is a state of the target cell, at the cost
/// the table holds for it, that cost is the cost of a cheapest route.
proof fn lemma_found(
    grid: Seq<Seq<u8>>,
    min_run: int,
    max_run: int,
    table: Seq<Vec<[u32; 2]>>,
    before: FixedPriorityQueue<State>,
    done: Set<State>,
    cost: int,
    state: State,
)
    requires
        search_inv(grid, min_run, max_run, table, before, done, None),
        forall|lower: int| lower < cost ==> (#[trigger] before.pending(lower)).len() == 0,
        in_grid(grid, state),
        at_target(grid, state),
        dist_of(table, state) == cost,
        cost < UNREACHED,
    ensures
        is_cheapest(grid, min_run, max_run, cost),
{
    assert(reachable_at(grid, min_run, max_run, state, cost));
    let found = choose|path: Seq<State>|
        #[trigger] is_path(grid, min_run, max_run, path) && path.last() == state && path_cost(
            grid,
            path,
        ) == cost;
    assert(is_route(grid, min_run, max_run, found));
    assert forall|other: State| in_grid(grid, other) && !done.contains(other) implies #[trigger] dist_of(
        table,
        other,
    ) >= cost by {
        let at = dist_of(table, other);
        if at < cost {
            assert(before.pending(at).contains(other));
        }
    }
    assert forall|route: Seq<State>| #[trigger]
        is_route(grid, min_run, max_run, route) implies path_cost(grid, route) >= cost by {
        lemma_lower_bound(grid, min_run, max_run, table, done, cost, route);
        lemma_path_facts(grid, min_run, max_run, route);
        assert(!done.contains(route.last()));
    }
}

/// When nothing is pending, no route costs less than the largest 32-bit
/// number.
proof fn lemma_drained(
    grid: Seq<Seq<u8>>,
    min_run: int,
    max_run: int,
    table: Seq<Vec<[u32; 2]>>,
    before: FixedPriorityQueue<State>,
    done: Set<State>,
)
    requires
        search_inv(grid, min_run, max_run, table, before, done, None),
        before.len() == 0,
    ensures
        search_outcome(grid, min_run, max_run, None),
{
    assert forall|other: State| in_grid(grid, other) && !done.contains(other) implies #[trigger] dist_of(
        table,
        other,
    ) >= UNREACHED by {
        let at = dist_of(table, other);
        if at < UNREACHED {
            assert(before.pending(at).contains(other));
            before.lemma_window(at);
        }
    }
    assert forall|route: Seq<State>| #[trigger]
        is_route(grid, min_run, max_run, route) implies path_cost(grid, route) >= UNREACHED by {
        lemma_lower_bound(grid, min_run, max_run, table, done, UNREACHED as int, route);
        lemma_path_facts(grid, min_run, max_run, route);
        assert(!done.contains(route.last()));
    }
}

/// The longest run that fits in the grid.
spec fn longest_run(grid: Seq<Seq<u8>>) -> int {
    if grid.len() > grid[0].len() {
        grid.len() - 1
    } else {
        grid[0].len() - 1
    }
}

/// The largest cost of a move that can still lower a cost in the table: 9
/// for each cell of the longest run that the limits and the grid allow, and
/// never as much as the value that stands for "not reached".
spec fn span(grid: Seq<Seq<u8>>, max_run: int) -> int {
    let reach = if max_run < longest_run(grid) {
        max_run
    } else {
        longest_run(grid)
    };
    if 9 * reach < UNREACHED {
        9 * reach
    } else {
        UNREACHED - 1
    }
}

/// The number of cells that lie beyond `from` along `axis`, up to the edge
/// of the grid.
spec fn room(grid: Seq<Seq<u8>>, from: State, axis: Axis, forward: bool) -> int {
    match axis {
        Axis::Horizontal => if forward {
            grid[0].len() - 1 - from.col
        } else {
            from.col as int
        },
        Axis::Vertical => if forward {
            grid.len() - 1 - from.row
        } else {
            from.row as int
        },
    }
}

/// Tries every move out of `from` that goes forward, or every one that goes
/// backward: walks away from `from` cell by cell, adds up the costs of the
/// cells entered, and from `min_run` cells on lowers the cost of the state
/// reached wherever the way through `from` is cheaper.
fn relax_run(
    weights: &[Vec<u8>],
    dist: &mut Vec<Vec<[u32; 2]>>,
    queue: &mut FixedPriorityQueue<State>,
    from: State,
    cost: u32,
    forward: bool,
    min_run: usize,
    max_run: usize,
    Ghost(done): Ghost<Set<State>>,
)
    requires
        search_inv(
            cells(weights@),
            min_run as int,
            max_run as int,
            old(dist)@,
            *old(queue),
            done,
            Some(from),
        ),
        in_grid(cells(weights@), from),
        dist_of(old(dist)@, from) == cost,
        old(queue).base() == cost,
        old(queue).max_weight() == span(cells(weights@), max_run as int),
    ensures
        search_inv(
            cells(weights@),
            min_run as int,
            max_run as int,
            final(dist)@,
            *final(queue),
            done,
            Some(from),
        ),
        dist_of(final(dist)@, from) == cost,
        final(queue).base() == cost,
        final(queue).max_weight() == old(queue).max_weight(),
        forall|state: State|
            in_grid(cells(weights@), state) ==> #[trigger] dist_of(final(dist)@, state) <= dist_of(
                old(dist)@,
                state,
            ),
        forall|to: State| #[trigger]
            is_move(cells(weights@), min_run as int, max_run as int, from, to) && move_forward(
                from,
                to,
            ) == forward ==> dist_of(final(dist)@, to) <= cost + move_cost(
                cells(weights@),
                from,
                to,
            ),
        table_total(final(dist)@) + final(queue).len() <= table_total(old(dist)@) + old(
            queue,
        ).len(),
{
    let ghost grid = cells(weights@);
    let axis = from.axis.perpendicular();
    let height = weights.len();
    assert(grid[0] == weights@[0]@);
    let width = weights[0].len();
    let space = match axis {
        Axis::Horizontal => if forward {
            width - 1 - from.col
        } else {
            from.col
        },
        Axis::Vertical => if forward {
            height - 1 - from.row
        } else {
            from.row
        },
    };
    let limit = if max_run < space {
        max_run
    } else {
        space
    };
    let mut steps: usize = 0;
    let mut row = from.row;
    let mut col = from.col;
    let mut run: u64 = 0;
    while steps < limit && run < UNREACHED as u64
        invariant
            grid == cells(weights@),
            height == grid.len(),
            width == grid[0].len(),
            axis == from.axis.spec_perpendicular(),
            space == room(grid, from, axis, forward),
            limit <= max_run,
            limit <= space,
            steps <= limit,
            in_grid(grid, from),
            row == row_after(from.row as int, axis, forward, steps as int),
            col == col_after(from.col as int, axis, forward, steps as int),
            run == run_cost(grid, from.row as int, from.col as int, axis, forward, steps as int),
            run <= 9 * steps,
            run <= UNREACHED + 9,
            search_inv(grid, min_run as int, max_run as int, dist@, *queue, done, Some(from)),
            dist_of(dist@, from) == cost,
            queue.base() == cost,
            queue.max_weight() == span(grid, max_run as int),
            forall|state: State|
                in_grid(grid, state) ==> #[trigger] dist_of(dist@, state) <= dist_of(
                    old(dist)@,
                    state,
                ),
            forall|to: State| #[trigger]
                is_move(grid, min_run as int, max_run as int, from, to) && move_forward(from, to)
                    == forward && move_len(from, to) <= steps ==> dist_of(dist@, to) <= cost
                    + move_cost(grid, from, to),
            table_total(dist@) + queue.len() <= table_total(old(dist)@) + old(queue).len(),
        decreases limit - steps,
    {
        steps += 1;
        match axis {
            Axis::Horizontal => if forward {
                col += 1;
            } else {
                col -= 1;
            },
            Axis::Vertical => if forward {
                row += 1;
            } else {
                row -= 1;
            },
        }
        let to = State { row, col, axis };
        assert(grid[row as int] == weights@[row as int]@);
        assert(grid[row as int].len() == grid[0].len());
        assert(grid[row as int][col as int] <= 9);
        run += weights[row][col] as u64;
        let ghost table_before = dist@;
        let ghost queue_before = *queue;
        if steps >= min_run {
            assert(is_move(grid, min_run as int, max_run as int, from, to));
            assert(move_len(from, to) == steps);
            assert(move_forward(from, to) == forward);
            assert(move_cost(grid, from, to) == run);
            let through = cost as u64 + run;
            if through < distance(dist, to) as u64 {
                assert(run <= span(grid, max_run as int)) by {
                    assert(steps <= longest_run(grid));
                }
                set_distance(dist, to, through as u32);
                queue.push(through as u32, to);
                proof {
                    lemma_relax(
                        grid,
                        min_run as int,
                        max_run as int,
                        table_before,
                        dist@,
                        queue_before,
                        *queue,
                        done,
                        from,
                        to,
                    );
                }
            }
        }
        assert forall|other: State| #[trigger]
            is_move(grid, min_run as int, max_run as int, from, other) && move_forward(from, other)
                == forward && move_len(from, other) <= steps implies dist_of(dist@, other) <= cost
            + move_cost(grid, from, other) by {
            if move_len(from, other) == steps {
                assert(other == to);
            } else {
                assert(dist_of(table_before, other) <= cost + move_cost(grid, from, other));
            }
        }
    }
    assert forall|to: State| #[trigger]
        is_move(grid, min_run as int, max_run as int, from, to) && move_forward(from, to)
            == forward implies dist_of(dist@, to) <= cost + move_cost(grid, from, to) by {
        assert(move_len(from, to) <= space);
        if move_len(from, to) > steps {
            lemma_run_cost_grows(
                grid,
                from.row as int,
                from.col as int,
                axis,
                forward,
                steps as int,
                move_len(from, to),
            );
        }
    }
}

/// The least cost of a route from the top-left cell of `weights` to its
/// bottom-right cell, where every straight run is `min_run` to `max_run`
/// cells long and each run turns away from the axis of the one before.
///
/// The cost of a route is the sum of the costs of the cells it enters. The
/// answer is `None` where no route costs less than `u32::MAX`.
pub fn dijkstra(weights: &[Vec<u8>], min_run: usize, max_run: usize) -> (outcome: Option<u32>)
    requires
        well_formed(cells(weights@)),
        1 <= min_run <= max_run,
    ensures
        search_outcome(cells(weights@), min_run as int, max_run as int, outcome),
{
    let ghost grid = cells(weights@);
    let height = weights.len();
    assert(grid[0] == weights@[0]@);
    let width = weights[0].len();
    let mut dist = unreached_table(height, width);
    let longest = if height > width {
        height - 1
    } else {
        width - 1
    };
    let reach = if max_run < longest {
        max_run
    } else {
        longest
    };
    let widest: usize = if reach <= MOST_CELLS {
        reach * 9
    } else {
        (UNREACHED - 1) as usize
    };
    let mut queue = FixedPriorityQueue::<State>::new(widest);
    let ghost empty_queue = queue;
    let ghost blank = dist@;
    let across = State { row: 0, col: 0, axis: Axis::Horizontal };
    let down = State { row: 0, col: 0, axis: Axis::Vertical };
    set_distance(&mut dist, across, 0);
    queue.push(0, across);
    let ghost half = queue;
    set_distance(&mut dist, down, 0);
    queue.push(0, down);
    let ghost mut done: Set<State> = Set::empty();
    proof {
        assert(queue.pending(0) =~= seq![across, down]);
        assert forall|start: State| at_start(start) implies #[trigger] dist_of(dist@, start)
            == 0 by {
            assert(start == across || start == down);
        }
        assert forall|state: State|
            in_grid(grid, state) && #[trigger] dist_of(dist@, state) < UNREACHED implies reachable_at(
            grid,
            min_run as int,
            max_run as int,
            state,
            dist_of(dist@, state),
        ) by {
            if state != across && state != down {
                assert(dist_of(blank, state) == UNREACHED);
            }
            lemma_reachable_start(grid, min_run as int, max_run as int, state);
        }
        assert forall|state: State|
            in_grid(grid, state) && !done.contains(state) && #[trigger] dist_of(dist@, state)
                < UNREACHED implies queue.pending(dist_of(dist@, state)).contains(state) by {
            if state != across && state != down {
                assert(dist_of(blank, state) == UNREACHED);
            }
            assert(queue.pending(0)[0] == across);
            assert(queue.pending(0)[1] == down);
        }
        assert forall|priority: int, i: int| 0 <= i < queue.pending(priority).len() implies {
            &&& in_grid(grid, #[trigger] queue.pending(priority)[i])
            &&& priority < UNREACHED
            &&& dist_of(dist@, queue.pending(priority)[i]) <= priority
        } by {
            if priority != 0 {
                assert(queue.pending(priority) == half.pending(priority));
                assert(half.pending(priority) == empty_queue.pending(priority));
            }
        }
    }
    loop
        invariant
            grid == cells(weights@),
            height == grid.len(),
            width == grid[0].len(),
            queue.max_weight() == span(grid, max_run as int),
            search_inv(grid, min_run as int, max_run as int, dist@, queue, done, None),
        decreases table_total(dist@) + queue.len(),
    {
        let ghost before = queue;
        match queue.pop() {
            None => {
                proof {
                    lemma_drained(grid, min_run as int, max_run as int, dist@, before, done);
                }
                return None;
            },
            Some((cost, state)) => {
                proof {
                    lemma_after_pop(
                        grid,
                        min_run as int,
                        max_run as int,
                        dist@,
                        before,
                        queue,
                        done,
                        cost as int,
                        state,
                    );
                }
                if cost <= distance(&dist, state) {
                    if state.row == height - 1 && state.col == width - 1 {
                        proof {
                            lemma_found(
                                grid,
                                min_run as int,
                                max_run as int,
                                dist@,
                                before,
                                done,
                                cost as int,
                                state,
                            );
                        }
                        return Some(cost);
                    }
                    relax_run(
                        weights,
                        &mut dist,
                        &mut queue,
                        state,
                        cost,
                        false,
                        min_run,
                        max_run,
                        Ghost(done),
                    );
                    relax_run(
                        weights,
                        &mut dist,
                        &mut queue,
                        state,
                        cost,
                        true,
                        min_run,
                        max_run,
                        Ghost(done),
                    );
                    proof {
                        lemma_settle(
                            grid,
                            min_run as int,
                            max_run as int,
                            dist@,
                            queue,
                            done,
                            state,
                        );
                        done = done.insert(state);
                    }
                }
            },
        }
    }
}

/// The least cost of a route across `grid` under the run limits, or `None`
/// where there is no route. A grid of a single cell needs no move: the start
/// is the target, and the cost is 0 whatever the limits are.
pub fn solve(grid: &[Vec<u8>], min_run: usize, max_run: usize) -> (outcome: Option<u32>)
    requires
        well_formed(cells(grid@)),
        1 <= min_run <= max_run,
    ensures
        search_outcome(cells(grid@), min_run as int, max_run as int, outcome),
        grid@.len() == 1 && grid@[0]@.len() == 1 ==> outcome == Some(0u32),
{
    if grid.len() == 1 && grid[0].len() == 1 {
        proof {
            let model = cells(grid@);
            assert(model[0] == grid@[0]@);
            let start = State { row: 0, col: 0, axis: Axis::Horizontal };
            let stay = seq![start];
            assert(is_route(model, min_run as int, max_run as int, stay));
            assert(stay.drop_last().len() == 0);
            assert(path_cost(model, stay) == 0);
            assert forall|route: Seq<State>| #[trigger]
                is_route(model, min_run as int, max_run as int, route) implies path_cost(
                model,
                route,
            ) >= 0 by {
                lemma_path_facts(model, min_run as int, max_run as int, route);
            }
        }
        return Some(0);
    }
    dijkstra(grid, min_run, max_run)
}

} // verus!
