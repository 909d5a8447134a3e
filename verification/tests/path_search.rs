use puzzle_kit::route::{Axis, State};
use puzzle_kit::search::{dijkstra, solve};

fn parse(rows: &[&str]) -> Vec<Vec<u8>> {
    rows.iter()
        .map(|row| row.bytes().map(|digit| digit - b'0').collect())
        .collect()
}

fn city() -> Vec<Vec<u8>> {
    parse(&[
        "2413432311323",
        "3215453535623",
        "3255245654254",
        "3446585845452",
        "4546657867536",
        "1438598798454",
        "4457876987766",
        "3637877979653",
        "4654967986887",
        "4564679986453",
        "1224686865563",
        "2546548887735",
        "4322674655533",
    ])
}

fn detour() -> Vec<Vec<u8>> {
    parse(&[
        "111111111111",
        "999999999991",
        "999999999991",
        "999999999991",
        "999999999991",
    ])
}

fn small_city() -> Vec<Vec<u8>> {
    parse(&[
        "2413432311",
        "3215453535",
        "3255245665",
        "3446585845",
        "4546657867",
        "1438598798",
        "2849558771",
        "2654547665",
        "6385558522",
        "2534356173",
    ])
}

fn walled_detour() -> Vec<Vec<u8>> {
    parse(&[
        "111111111111",
        "999999999991",
        "999999999991",
        "999999999991",
        "999999999999",
    ])
}

/// The cost of the route through the given turning points, or `None` where
/// it is no route: every run must be straight, `min_run` to `max_run` cells
/// long, and turn away from the axis of the run before it.
fn route_cost(
    grid: &[Vec<u8>],
    turns: &[(usize, usize)],
    min_run: usize,
    max_run: usize,
) -> Option<u32> {
    if turns.first() != Some(&(0, 0)) {
        return None;
    }
    if turns.last() != Some(&(grid.len() - 1, grid[0].len() - 1)) {
        return None;
    }
    let mut cost = 0;
    let mut last_horizontal = None;
    for pair in turns.windows(2) {
        let ((r0, c0), (r1, c1)) = (pair[0], pair[1]);
        let horizontal = r0 == r1;
        if !horizontal && c0 != c1 {
            return None;
        }
        if last_horizontal == Some(horizontal) {
            return None;
        }
        last_horizontal = Some(horizontal);
        let len = r0.abs_diff(r1) + c0.abs_diff(c1);
        if len < min_run || len > max_run {
            return None;
        }
        for step in 1..=len {
            let row = if r1 > r0 { r0 + step } else if r1 < r0 { r0 - step } else { r0 };
            let col = if c1 > c0 { c0 + step } else if c1 < c0 { c0 - step } else { c0 };
            cost += u32::from(grid[row][col]);
        }
    }
    Some(cost)
}

#[test]
fn city_with_runs_of_one_to_three() {
    assert_eq!(solve(&city(), 1, 3), Some(102));
}

#[test]
fn city_with_runs_of_four_to_ten() {
    assert_eq!(solve(&city(), 4, 10), Some(94));
}

#[test]
fn detour_with_runs_of_four_to_ten() {
    assert_eq!(solve(&detour(), 4, 10), Some(71));
}

#[test]
fn detour_with_runs_of_one_to_three() {
    assert_eq!(solve(&detour(), 1, 3), Some(59));
}

#[test]
fn dijkstra_agrees_with_solve() {
    assert_eq!(dijkstra(&city(), 1, 3), Some(102));
    assert_eq!(dijkstra(&city(), 4, 10), Some(94));
    assert_eq!(dijkstra(&detour(), 4, 10), Some(71));
}

#[test]
fn small_city_with_runs_of_one_to_three() {
    let grid = small_city();
    let turns = [
        (0, 0), (1, 0), (1, 1), (4, 1), (4, 2), (7, 2),
        (7, 4), (9, 4), (9, 7), (8, 7), (8, 9), (9, 9),
    ];
    assert_eq!(route_cost(&grid, &turns, 1, 3), Some(73));
    assert_eq!(solve(&grid, 1, 3), Some(73));
}

#[test]
fn small_city_with_runs_of_four_to_ten() {
    let grid = small_city();
    // straight down the first column, then straight along the last row
    let turns = [(0, 0), (9, 0), (9, 9)];
    assert_eq!(route_cost(&grid, &turns, 4, 10), Some(63));
    assert_eq!(solve(&grid, 4, 10), Some(63));
}

#[test]
fn walled_detour_with_runs_of_four_to_ten() {
    let grid = walled_detour();
    let turns = [(0, 0), (0, 7), (4, 7), (4, 11)];
    assert_eq!(route_cost(&grid, &turns, 4, 10), Some(79));
    assert_eq!(solve(&grid, 4, 10), Some(79));
    // down the last column the target would be entered at a cost of 9
    // after 1 + ... + 1 + 9 + 9 + 9, but the run down is only four cells
    // long and the one before it eleven
    assert_eq!(route_cost(&grid, &[(0, 0), (0, 11), (4, 11)], 4, 10), None);
    assert_eq!(route_cost(&grid, &[(0, 0), (0, 11), (4, 11)], 4, 11), Some(11 + 3 + 9));
    assert_eq!(solve(&grid, 4, 11), Some(23));
}

#[test]
fn search_finds_no_more_than_any_route_costs() {
    let grid = city();
    let turns = [(0, 0), (0, 3), (3, 3), (3, 6), (6, 6), (6, 9), (9, 9), (9, 12), (12, 12)];
    let cost = route_cost(&grid, &turns, 1, 3).unwrap();
    assert!(solve(&grid, 1, 3).unwrap() <= cost);
    assert!(solve(&grid, 3, 3).unwrap() <= cost);
    assert_eq!(route_cost(&grid, &turns, 1, 2), None);
}

#[test]
fn narrow_grid_is_unreachable() {
    let grid = parse(&["123", "456", "789"]);
    assert_eq!(solve(&grid, 4, 10), None);
    assert_eq!(dijkstra(&grid, 4, 10), None);
    let strip = parse(&["12"]);
    assert_eq!(solve(&strip, 2, 2), None);
}

#[test]
fn single_cell_costs_nothing() {
    let grid = parse(&["7"]);
    assert_eq!(solve(&grid, 1, 3), Some(0));
    assert_eq!(solve(&grid, 4, 10), Some(0));
    assert_eq!(dijkstra(&grid, 1, 1), Some(0));
    assert_eq!(dijkstra(&grid, 4, 10), Some(0));
}

#[test]
fn two_by_two_takes_the_cheaper_corner() {
    let grid = parse(&["12", "34"]);
    // right then down enters 2 and 4; down then right enters 3 and 4
    assert_eq!(solve(&grid, 1, 1), Some(6));
    let grid = parse(&["19", "14"]);
    assert_eq!(solve(&grid, 1, 1), Some(5));
}

#[test]
fn start_cell_is_not_paid_for() {
    let grid = parse(&["91", "11"]);
    assert_eq!(solve(&grid, 1, 3), Some(2));
}

#[test]
fn target_reached_by_a_run_of_exactly_the_least_length() {
    let row = parse(&["12345"]);
    assert_eq!(solve(&row, 4, 10), Some(2 + 3 + 4 + 5));
    let short = parse(&["1234"]);
    assert_eq!(solve(&short, 4, 10), None);
    let column = parse(&["1", "2", "3", "4", "5"]);
    assert_eq!(solve(&column, 4, 4), Some(14));
}

#[test]
fn a_last_run_shorter_than_the_least_length_does_not_count() {
    // The target is five cells to the right, but a run must be three or four
    // cells long and the next one turns: no route ends in the last cell.
    let row = parse(&["111111"]);
    assert_eq!(solve(&row, 3, 4), None);
    assert_eq!(solve(&row, 5, 5), Some(5));
    assert_eq!(solve(&row, 1, 5), Some(5));
}

#[test]
fn a_run_may_not_go_on_past_the_greatest_length() {
    // Straight along the top row is cheapest, but needs a run of three.
    let grid = parse(&["1111", "9999"]);
    assert_eq!(solve(&grid, 1, 3), Some(3 + 9));
    // With runs of at most two the route has to dip into the second row.
    assert_eq!(solve(&grid, 1, 2), Some(1 + 1 + 9 + 9));
}

#[test]
fn zero_costs_are_handled() {
    let grid = parse(&["000", "000", "000"]);
    assert_eq!(solve(&grid, 1, 3), Some(0));
    // runs of one cell go down and right in turn, through one of the nines
    let grid = parse(&["090", "000", "090"]);
    assert_eq!(solve(&grid, 1, 1), Some(9));
    assert_eq!(solve(&grid, 1, 2), Some(0));
}

#[test]
fn search_is_repeatable() {
    let grid = city();
    assert_eq!(solve(&grid, 1, 3), solve(&grid, 1, 3));
    assert_eq!(solve(&grid, 4, 10), solve(&grid, 4, 10));
    assert_eq!(dijkstra(&grid, 2, 5), dijkstra(&grid, 2, 5));
}

#[test]
fn free_runs_are_never_dearer() {
    let grid = city();
    let free = solve(&grid, 1, 13 * 13).unwrap();
    assert_eq!(free, 78);
    for (min_run, max_run) in [(1, 3), (4, 10), (2, 2), (1, 1), (3, 7)] {
        if let Some(cost) = solve(&grid, min_run, max_run) {
            assert!(cost >= free);
        }
    }
}

#[test]
fn longer_greatest_run_is_never_dearer() {
    let grid = city();
    for min_run in 1..5 {
        let mut last = None;
        for max_run in min_run..12 {
            let cost = solve(&grid, min_run, max_run);
            if let Some(before) = last {
                assert!(cost.is_some());
                assert!(cost.unwrap() <= before);
            }
            if cost.is_some() {
                last = cost;
            }
        }
    }
}

#[test]
fn very_long_greatest_run_is_accepted() {
    assert_eq!(solve(&city(), 1, usize::MAX), Some(78));
    assert_eq!(solve(&detour(), 4, usize::MAX), Some(15));
    assert_eq!(solve(&detour(), usize::MAX, usize::MAX), None);
}

#[test]
fn axes_are_perpendicular_to_each_other() {
    assert_eq!(Axis::Horizontal.perpendicular(), Axis::Vertical);
    assert_eq!(Axis::Vertical.perpendicular(), Axis::Horizontal);
    assert_eq!(Axis::Horizontal.slot(), 0);
    assert_eq!(Axis::Vertical.slot(), 1);
    let state = State { row: 1, col: 2, axis: Axis::Vertical };
    assert_eq!(state.axis.perpendicular().perpendicular(), state.axis);
}

/// The least cost by single steps: a state is a cell with the direction of
/// the step into it and the number of steps taken in that direction so
/// far. A step may go straight on while fewer than `max_run` steps were
/// taken, turn left or right once at least `min_run` were, never turn
/// back, and the target counts only after at least `min_run` steps.
fn by_single_steps(grid: &[Vec<u8>], min_run: usize, max_run: usize) -> Option<u32> {
    let (height, width) = (grid.len(), grid[0].len());
    if height == 1 && width == 1 {
        return Some(0);
    }
    let steps: [(isize, isize); 4] = [(0, 1), (1, 0), (0, -1), (-1, 0)];
    let mut best = std::collections::HashMap::new();
    let mut open = std::collections::BinaryHeap::new();
    for way in 0..4 {
        open.push(std::cmp::Reverse((0u32, 0usize, 0usize, way, 0usize)));
    }
    while let Some(std::cmp::Reverse((cost, row, col, way, run))) = open.pop() {
        if row == height - 1 && col == width - 1 && run >= min_run {
            return Some(cost);
        }
        if best.get(&(row, col, way, run)).is_some_and(|&known| known < cost) {
            continue;
        }
        for next in 0..4 {
            let next_run = if next == way { run + 1 } else { 1 };
            let allowed = if run == 0 {
                next == way
            } else if next == way {
                run < max_run
            } else {
                next != (way + 2) % 4 && run >= min_run
            };
            if !allowed {
                continue;
            }
            let to_row = row as isize + steps[next].0;
            let to_col = col as isize + steps[next].1;
            if to_row < 0 || to_col < 0 || to_row >= height as isize || to_col >= width as isize {
                continue;
            }
            let (to_row, to_col) = (to_row as usize, to_col as usize);
            let to_cost = cost + u32::from(grid[to_row][to_col]);
            let state = (to_row, to_col, next, next_run);
            if best.get(&state).is_none_or(|&known| to_cost < known) {
                best.insert(state, to_cost);
                open.push(std::cmp::Reverse((to_cost, to_row, to_col, next, next_run)));
            }
        }
    }
    None
}

#[test]
fn runs_and_single_steps_agree() {
    for (min_run, max_run) in [(1, 3), (4, 10), (1, 1), (2, 2), (2, 5), (3, 3), (7, 9), (1, 20)] {
        for grid in [city(), detour(), small_city(), walled_detour()] {
            assert_eq!(solve(&grid, min_run, max_run), by_single_steps(&grid, min_run, max_run));
        }
    }
}

#[test]
fn runs_and_single_steps_agree_where_the_last_run_is_the_shortest_allowed() {
    for width in 1..9 {
        for height in 1..5 {
            let grid: Vec<Vec<u8>> = (0..height)
                .map(|row| (0..width).map(|col| ((row * 7 + col * 3) % 10) as u8).collect())
                .collect();
            for min_run in 1..6 {
                for max_run in min_run..8 {
                    assert_eq!(
                        solve(&grid, min_run, max_run),
                        by_single_steps(&grid, min_run, max_run)
                    );
                }
            }
        }
    }
}

/// The least cost of a walk from the top-left cell to the bottom-right one
/// that goes from cell to cell with no rule on runs or turns.
fn by_plain_walks(grid: &[Vec<u8>]) -> u32 {
    let (height, width) = (grid.len(), grid[0].len());
    let mut best = vec![vec![u32::MAX; width]; height];
    best[0][0] = 0;
    // costs are settled after as many rounds as there are cells
    for _ in 0..height * width {
        for row in 0..height {
            for col in 0..width {
                if best[row][col] == u32::MAX {
                    continue;
                }
                let mut next = vec![];
                if row > 0 { next.push((row - 1, col)); }
                if col > 0 { next.push((row, col - 1)); }
                if row + 1 < height { next.push((row + 1, col)); }
                if col + 1 < width { next.push((row, col + 1)); }
                for (to_row, to_col) in next {
                    let through = best[row][col] + u32::from(grid[to_row][to_col]);
                    if through < best[to_row][to_col] {
                        best[to_row][to_col] = through;
                    }
                }
            }
        }
    }
    best[height - 1][width - 1]
}

#[test]
fn free_runs_find_the_cheapest_walk() {
    for grid in [city(), detour(), small_city(), walled_detour()] {
        let cells = grid.len() * grid[0].len();
        let plain = by_plain_walks(&grid);
        assert_eq!(solve(&grid, 1, cells), Some(plain));
        assert_eq!(solve(&grid, 1, grid.len().max(grid[0].len())), Some(plain));
        for (min_run, max_run) in [(1, 3), (4, 10), (2, 2), (1, 1), (3, 7)] {
            if let Some(cost) = solve(&grid, min_run, max_run) {
                assert!(cost >= plain);
            }
        }
    }
    // a walk that winds back and forth is still found by runs of any length
    let maze = parse(&["19111", "19191", "19191", "11191"]);
    assert_eq!(by_plain_walks(&maze), 13);
    assert_eq!(solve(&maze, 1, 20), Some(13));
}
