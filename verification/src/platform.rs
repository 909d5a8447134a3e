use vstd::prelude::*;
use crate::hashed::{all_recorded, count, nothing_seen, record, recorded};

verus! {

/// The byte of a round rock, which rolls: `O`.
pub const ROUND_ROCK: u8 = 79;

/// The byte of a cube-shaped rock, which stays where it is: `#`.
pub const CUBE_ROCK: u8 = 35;

/// The byte of empty ground: `.`.
pub const EMPTY: u8 = 46;

/// The load of the round rocks among the first `upto` cells of a grid that
/// is stored row by row: each rock weighs as many units as there are rows
/// from its own row down to the last.
pub open spec fn load(grid: Seq<u8>, height: int, width: int, upto: int) -> int
    decreases upto,
{
    if upto <= 0 {
        0
    } else {
        load(grid, height, width, upto - 1) + if grid[upto - 1] == ROUND_ROCK {
            height - (upto - 1) / width
        } else {
            0
        }
    }
}

/// The load grows with the number of cells counted, as long as no rock lies
/// below the last row.
pub proof fn lemma_load_grows(grid: Seq<u8>, height: int, width: int, fewer: int, more: int)
    requires
        0 <= fewer <= more <= grid.len(),
        forall|i: int| 0 <= i < grid.len() && grid[i] == ROUND_ROCK ==> i / width <= height,
    ensures
        0 <= load(grid, height, width, fewer) <= load(grid, height, width, more),
    decreases more,
{
    if more > 0 {
        if fewer < more {
            lemma_load_grows(grid, height, width, fewer, more - 1);
        } else {
            lemma_load_grows(grid, height, width, fewer - 1, more - 1);
        }
    }
}

/// The load of all round rocks of a grid of `height` rows stored row by row,
/// `width` cells to a row. No round rock may lie below the last row.
pub fn eval_grid(grid: &[u8], height: usize, width: usize) -> (total: usize)
    requires
        forall|i: int|
            0 <= i < grid@.len() && grid@[i] == ROUND_ROCK ==> width > 0 && i / width as int
                <= height,
        load(grid@, height as int, width as int, grid@.len() as int) <= usize::MAX,
    ensures
        total == load(grid@, height as int, width as int, grid@.len() as int),
{
    let mut total: usize = 0;
    let mut i: usize = 0;
    while i < grid.len()
        invariant
            i <= grid@.len(),
            forall|k: int|
                0 <= k < grid@.len() && grid@[k] == ROUND_ROCK ==> width > 0 && k / width as int
                    <= height,
            load(grid@, height as int, width as int, grid@.len() as int) <= usize::MAX,
            total == load(grid@, height as int, width as int, i as int),
        decreases grid@.len() - i,
    {
        proof {
            lemma_load_grows(grid@, height as int, width as int, i + 1, grid@.len() as int);
        }
        if grid[i] == ROUND_ROCK {
            total += height - i / width;
        }
        i += 1;
    }
    total
}

/// Where the stretch of a line that holds position `at` begins: just behind
/// the nearest cube-shaped rock before `at`, or at the start of the line.
pub open spec fn stretch_start(line: Seq<u8>, at: int) -> int
    decreases at,
{
    if at <= 0 || line[at - 1] == CUBE_ROCK {
        at
    } else {
        stretch_start(line, at - 1)
    }
}

/// Where the stretch of a line that holds position `at` ends: at the next
/// cube-shaped rock from `at` on, or at the end of the line.
pub open spec fn stretch_end(line: Seq<u8>, at: int) -> int
    decreases line.len() - at,
{
    if at >= line.len() || line[at] == CUBE_ROCK {
        at
    } else {
        stretch_end(line, at + 1)
    }
}

/// The number of round rocks of a line from position `from` up to `to`.
pub open spec fn round_rocks(line: Seq<u8>, from: int, to: int) -> int
    decreases to - from,
{
    if to <= from {
        0
    } else {
        round_rocks(line, from, to - 1) + if line[to - 1] == ROUND_ROCK {
            1int
        } else {
            0int
        }
    }
}

/// A line after its round rocks have rolled towards its start. Cube-shaped
/// rocks stay. In every stretch between them the round rocks gather at the
/// start of the stretch, one behind the other. A place further on that a
/// round rock has left is empty, and any other keeps what it held.
pub open spec fn settled(line: Seq<u8>) -> Seq<u8> {
    Seq::new(
        line.len(),
        |at: int|
            if line[at] == CUBE_ROCK {
                CUBE_ROCK
            } else if at - stretch_start(line, at) < round_rocks(
                line,
                stretch_start(line, at),
                stretch_end(line, at),
            ) {
                ROUND_ROCK
            } else if line[at] == ROUND_ROCK {
                EMPTY
            } else {
                line[at]
            },
    )
}

/// A stretch without a cube-shaped rock that begins behind one, or at the
/// start of the line, is where each of its positions' stretch begins.
proof fn lemma_stretch_start(line: Seq<u8>, start: int, at: int)
    requires
        0 <= start <= at,
        start == 0 || line[start - 1] == CUBE_ROCK,
        forall|p: int| start <= p < at ==> line[p] != CUBE_ROCK,
    ensures
        stretch_start(line, at) == start,
    decreases at - start,
{
    if at > start {
        lemma_stretch_start(line, start, at - 1);
    }
}

/// A stretch without a cube-shaped rock that ends before one, or at the
/// end of the line, is where each of its positions' stretch ends.
proof fn lemma_stretch_end(line: Seq<u8>, at: int, end: int)
    requires
        0 <= at <= end <= line.len(),
        end == line.len() || line[end] == CUBE_ROCK,
        forall|p: int| at <= p < end ==> line[p] != CUBE_ROCK,
    ensures
        stretch_end(line, at) == end,
    decreases end - at,
{
    if at < end {
        lemma_stretch_end(line, at + 1, end);
    }
}

/// No stretch holds more round rocks than it has places.
proof fn lemma_round_rocks_bounds(line: Seq<u8>, from: int, to: int)
    requires
        from <= to,
    ensures
        0 <= round_rocks(line, from, to) <= to - from,
    decreases to - from,
{
    if from < to {
        lemma_round_rocks_bounds(line, from, to - 1);
    }
}

/// The place in the grid of position `j` of line `i`, as `index` gives it.
pub open spec fn place<F: Fn(usize, usize) -> usize>(index: F, j: usize, i: usize) -> usize {
    choose|at: usize| call_ensures(index, (j, i), at)
}

/// The places that `index` gives, as a function of the position and the
/// line.
pub open spec fn placing<F: Fn(usize, usize) -> usize>(index: F) -> spec_fn(usize, usize) -> usize {
    |j: usize, i: usize| place(index, j, i)
}

/// Whether `at` is the place of some position of one of the lines.
pub open spec fn on_a_line(
    layout: spec_fn(usize, usize) -> usize,
    len_tilt: usize,
    len_non_tilt: usize,
    at: int,
) -> bool {
    exists|j: usize, i: usize| j < len_tilt && i < len_non_tilt && #[trigger] layout(j, i) == at
}

/// Line `i` of a grid: the cells at the places of the positions from 0 up
/// to `len_tilt`.
pub open spec fn line_of(
    grid: Seq<u8>,
    layout: spec_fn(usize, usize) -> usize,
    len_tilt: usize,
    i: usize,
) -> Seq<u8> {
    Seq::new(len_tilt as nat, |j: int| grid[layout(j as usize, i) as int])
}

/// `index` can be asked for the place of each position of each line, gives
/// only places in a grid of `cells` cells, always the same place for one
/// position, and never the same for two.
pub open spec fn lays_out<F: Fn(usize, usize) -> usize>(
    index: F,
    len_tilt: usize,
    len_non_tilt: usize,
    cells: int,
) -> bool {
    &&& forall|j: usize, i: usize|
        j < len_tilt && i < len_non_tilt ==> call_requires(index, (j, i))
    &&& forall|j: usize, i: usize, at: usize|
        j < len_tilt && i < len_non_tilt && #[trigger] call_ensures(index, (j, i), at) ==> at
            < cells
    &&& forall|j: usize, i: usize, at: usize, j2: usize, i2: usize, at2: usize|
        j < len_tilt && i < len_non_tilt && j2 < len_tilt && i2 < len_non_tilt
            && #[trigger] call_ensures(index, (j, i), at) && #[trigger] call_ensures(
            index,
            (j2, i2),
            at2,
        ) ==> (at == at2 <==> j == j2 && i == i2)
}

/// `index` has given a place for each position of each line.
pub open spec fn all_placed<F: Fn(usize, usize) -> usize>(
    index: F,
    len_tilt: usize,
    len_non_tilt: usize,
) -> bool {
    forall|j: usize, i: usize|
        j < len_tilt && i < len_non_tilt ==> call_ensures(
            index,
            (j, i),
            #[trigger] place(index, j, i),
        )
}

/// A grid after the round rocks of each of its lines have rolled towards
/// the start of their line. There are `len_non_tilt` lines of `len_tilt`
/// positions each, and `layout(j, i)` is the place in the grid of position
/// `j` of line `i`. Cells on no line keep what they hold.
pub open spec fn tilted(
    grid: Seq<u8>,
    layout: spec_fn(usize, usize) -> usize,
    len_tilt: usize,
    len_non_tilt: usize,
) -> Seq<u8> {
    Seq::new(
        grid.len(),
        |at: int|
            if on_a_line(layout, len_tilt, len_non_tilt, at) {
                let (j, i) = choose|j: usize, i: usize|
                    j < len_tilt && i < len_non_tilt && #[trigger] layout(j, i) == at;
                settled(line_of(grid, layout, len_tilt, i))[j as int]
            } else {
                grid[at]
            },
    )
}

/// How a grid tilts depends only on the places of the positions of its
/// lines, as long as no two positions share a place.
pub proof fn lemma_tilted_agree(
    grid: Seq<u8>,
    first: spec_fn(usize, usize) -> usize,
    second: spec_fn(usize, usize) -> usize,
    len_tilt: usize,
    len_non_tilt: usize,
)
    requires
        forall|j: usize, i: usize|
            j < len_tilt && i < len_non_tilt ==> #[trigger] first(j, i) == second(j, i),
        forall|j: usize, i: usize, j2: usize, i2: usize|
            j < len_tilt && i < len_non_tilt && j2 < len_tilt && i2 < len_non_tilt
                && #[trigger] first(j, i) == #[trigger] first(j2, i2) ==> j == j2 && i == i2,
    ensures
        tilted(grid, first, len_tilt, len_non_tilt) == tilted(
            grid,
            second,
            len_tilt,
            len_non_tilt,
        ),
{
    let one = tilted(grid, first, len_tilt, len_non_tilt);
    let two = tilted(grid, second, len_tilt, len_non_tilt);
    assert forall|at: int| 0 <= at < grid.len() implies one[at] == two[at] by {
        if on_a_line(first, len_tilt, len_non_tilt, at) {
            let (j, i) = choose|j: usize, i: usize|
                j < len_tilt && i < len_non_tilt && #[trigger] first(j, i) == at;
            assert(second(j, i) == at);
            let (j2, i2) = choose|j: usize, i: usize|
                j < len_tilt && i < len_non_tilt && #[trigger] second(j, i) == at;
            assert(first(j2, i2) == at);
            assert(line_of(grid, first, len_tilt, i) =~= line_of(grid, second, len_tilt, i));
        } else if on_a_line(second, len_tilt, len_non_tilt, at) {
            let (j2, i2) = choose|j: usize, i: usize|
                j < len_tilt && i < len_non_tilt && #[trigger] second(j, i) == at;
            assert(first(j2, i2) == at);
        }
    }
    assert(one =~= two);
}

/// The number of round rocks in a stretch depends on that stretch alone.
proof fn lemma_round_rocks_agree(first: Seq<u8>, second: Seq<u8>, from: int, to: int)
    requires
        0 <= from,
        forall|p: int| from <= p < to ==> first[p] == second[p],
    ensures
        round_rocks(first, from, to) == round_rocks(second, from, to),
    decreases to - from,
{
    if from < to {
        lemma_round_rocks_agree(first, second, from, to - 1);
    }
}

/// Where a stretch begins depends on the line before it alone.
proof fn lemma_stretch_start_agree(first: Seq<u8>, second: Seq<u8>, at: int)
    requires
        forall|p: int| 0 <= p < at ==> first[p] == second[p],
    ensures
        stretch_start(first, at) == stretch_start(second, at),
    decreases at,
{
    if at > 0 && first[at - 1] != CUBE_ROCK {
        lemma_stretch_start_agree(first, second, at - 1);
    }
}

/// What comes behind a cube-shaped rock does not change how the line
/// before it settles.
proof fn lemma_settled_agree(shorter: Seq<u8>, longer: Seq<u8>, cube: int, at: int)
    requires
        0 <= at <= cube < shorter.len() <= longer.len(),
        forall|p: int| 0 <= p < shorter.len() ==> shorter[p] == longer[p],
        shorter[cube] == CUBE_ROCK,
    ensures
        settled(shorter)[at] == settled(longer)[at],
{
    lemma_stretch_start_agree(shorter, longer, at);
    let start = stretch_start(shorter, at);
    let end = stretch_end(shorter, at);
    lemma_stretch_end_found(shorter, at);
    lemma_stretch_start_found(shorter, at);
    if end > cube {
        assert(shorter[cube] != CUBE_ROCK);
    }
    lemma_stretch_end(longer, at, end);
    lemma_round_rocks_agree(shorter, longer, start, end);
}

/// A stretch ends at the first cube-shaped rock from its position on, or at
/// the end of the line.
proof fn lemma_stretch_end_found(line: Seq<u8>, at: int)
    requires
        0 <= at <= line.len(),
    ensures
        at <= stretch_end(line, at) <= line.len(),
        stretch_end(line, at) == line.len() || line[stretch_end(line, at)] == CUBE_ROCK,
        forall|p: int| at <= p < stretch_end(line, at) ==> line[p] != CUBE_ROCK,
    decreases line.len() - at,
{
    if at < line.len() && line[at] != CUBE_ROCK {
        lemma_stretch_end_found(line, at + 1);
    }
}

/// A stretch begins behind the last cube-shaped rock before its position,
/// or at the start of the line.
proof fn lemma_stretch_start_found(line: Seq<u8>, at: int)
    requires
        0 <= at,
    ensures
        0 <= stretch_start(line, at) <= at,
        stretch_start(line, at) == 0 || line[stretch_start(line, at) - 1] == CUBE_ROCK,
        forall|p: int| stretch_start(line, at) <= p < at ==> line[p] != CUBE_ROCK,
    decreases at,
{
    if at > 0 && line[at - 1] != CUBE_ROCK {
        lemma_stretch_start_found(line, at - 1);
    }
}

/// What a position of a line holds while the round rocks roll, when the
/// positions of `seen` have been looked at: up to `start` the line is
/// settled, from there up to `next` lie the round rocks of the stretch that
/// begins at `start`, and the places that they have left are empty.
spec fn rolling(seen: Seq<u8>, start: int, next: int, at: int) -> u8 {
    if at < start {
        settled(seen)[at]
    } else if at < next {
        ROUND_ROCK
    } else if seen[at] == ROUND_ROCK {
        EMPTY
    } else {
        seen[at]
    }
}

/// When the positions of a stretch have all been looked at, the stretch is
/// settled.
proof fn lemma_stretch_settled(line: Seq<u8>, start: int, next: int, end: int)
    requires
        0 <= start <= next <= end <= line.len(),
        start == 0 || line[start - 1] == CUBE_ROCK,
        end == line.len() || line[end] == CUBE_ROCK,
        forall|p: int| start <= p < end ==> line[p] != CUBE_ROCK,
        next == start + round_rocks(line, start, end),
    ensures
        forall|p: int| start <= p < end ==> rolling(line, start, next, p) == settled(line)[p],
{
    assert forall|p: int| start <= p < end implies rolling(line, start, next, p) == settled(
        line,
    )[p] by {
        lemma_stretch_start(line, start, p);
        lemma_stretch_end(line, p, end);
    }
}

/// Rolls the round rocks of every line of the grid towards the start of
/// their line, as far as they go: up to the start, to a cube-shaped rock or
/// to another round rock. There are `len_non_tilt` lines of `len_tilt`
/// positions each, and `index(j, i)` is the place in the grid of position
/// `j` of line `i`.
pub fn tilt<F: Fn(usize, usize) -> usize>(
    len_tilt: usize,
    len_non_tilt: usize,
    grid: &mut [u8],
    index: F,
)
    requires
        lays_out(index, len_tilt, len_non_tilt, old(grid)@.len() as int),
    ensures
        all_placed(index, len_tilt, len_non_tilt),
        final(grid)@ == tilted(old(grid)@, placing(index), len_tilt, len_non_tilt),
{
    let ghost cells = grid@.len();
    let mut i: usize = 0;
    while i < len_non_tilt
        invariant
            i <= len_non_tilt,
            grid@.len() == cells,
            old(grid)@.len() == cells,
            lays_out(index, len_tilt, len_non_tilt, cells as int),
            forall|j: usize, done: usize|
                j < len_tilt && done < i ==> call_ensures(
                    index,
                    (j, done),
                    #[trigger] place(index, j, done),
                ),
            forall|j: usize, done: usize|
                j < len_tilt && done < i ==> grid@[#[trigger] place(index, j, done) as int]
                    == settled(line_of(old(grid)@, placing(index), len_tilt, done))[j as int],
            forall|at: int|
                0 <= at < cells && (forall|j: usize, done: usize|
                    j < len_tilt && done < i ==> #[trigger] place(index, j, done) != at)
                    ==> #[trigger] grid@[at] == old(grid)@[at],
        decreases len_non_tilt - i,
    {
        let ghost before = grid@;
        let ghost mut seen: Seq<u8> = Seq::empty();
        let mut next: usize = 0;
        let ghost mut start: int = 0;
        let mut j: usize = 0;
        while j < len_tilt
            invariant
                i < len_non_tilt,
                j <= len_tilt,
                grid@.len() == cells,
                old(grid)@.len() == cells,
                lays_out(index, len_tilt, len_non_tilt, cells as int),
                forall|p: usize, done: usize|
                    p < len_tilt && done < i ==> call_ensures(
                        index,
                        (p, done),
                        #[trigger] place(index, p, done),
                    ),
                seen.len() == j,
                forall|p: usize|
                    p < j ==> call_ensures(index, (p, i), #[trigger] place(index, p, i)),
                forall|p: usize|
                    p < j ==> seen[p as int] == old(grid)@[#[trigger] place(index, p, i) as int],
                0 <= start <= next <= j,
                start == 0 || seen[start - 1] == CUBE_ROCK,
                forall|p: int| start <= p < j ==> seen[p] != CUBE_ROCK,
                next == start + round_rocks(seen, start, j as int),
                forall|p: usize|
                    p < j ==> grid@[#[trigger] place(index, p, i) as int] == rolling(
                        seen,
                        start,
                        next as int,
                        p as int,
                    ),
                forall|at: int|
                    0 <= at < cells && (forall|p: usize|
                        p < j ==> #[trigger] place(index, p, i) != at) ==> #[trigger] grid@[at]
                        == before[at],
                forall|at: int|
                    0 <= at < cells && (forall|p: usize, done: usize|
                        p < len_tilt && done < i ==> #[trigger] place(index, p, done) != at)
                        ==> #[trigger] before[at] == old(grid)@[at],
            decreases len_tilt - j,
        {
            let idx = index(j, i);
            let ghost shown = grid@;
            let ghost seen_before = seen;
            let cell = grid[idx];
            proof {
                assert(idx == place(index, j, i));
                assert(forall|p: usize| p < j ==> #[trigger] place(index, p, i) != idx);
                assert(forall|p: usize, done: usize|
                    p < len_tilt && done < i ==> #[trigger] place(index, p, done) != idx);
                assert(grid@[idx as int] == before[idx as int]);
                assert(before[idx as int] == old(grid)@[idx as int]);
                seen = seen.push(cell);
                lemma_round_rocks_agree(seen_before, seen, start, j as int);
            }
            if cell == CUBE_ROCK {
                proof {
                    lemma_stretch_settled(seen, start, next as int, j as int);
                    assert forall|p: usize| p < j + 1 implies grid@[#[trigger] place(
                        index,
                        p,
                        i,
                    ) as int] == rolling(seen, j + 1, j + 1, p as int) by {
                        if p < j {
                            if p < start {
                                lemma_settled_agree(seen_before, seen, start - 1, p as int);
                            } else {
                                assert(rolling(seen_before, start, next as int, p as int)
                                    == rolling(seen, start, next as int, p as int));
                            }
                        }
                    }
                    start = j + 1;
                }
                next = j + 1;
            } else if cell == ROUND_ROCK {
                assert(call_ensures(index, (next, i), place(index, next, i)));
                grid[idx] = EMPTY;
                let to = index(next, i);
                assert(to == place(index, next, i));
                grid[to] = ROUND_ROCK;
                next += 1;
                proof {
                    assert forall|p: usize| p < j + 1 implies grid@[#[trigger] place(
                        index,
                        p,
                        i,
                    ) as int] == rolling(seen, start, next as int, p as int) by {
                        if p < start {
                            lemma_settled_agree(seen_before, seen, start - 1, p as int);
                        }
                        if p != j && p != next - 1 {
                            assert(place(index, p, i) != idx);
                            assert(place(index, p, i) != to);
                            assert(grid@[place(index, p, i) as int] == shown[place(
                                index,
                                p,
                                i,
                            ) as int]);
                        }
                    }
                    assert forall|at: int|
                        0 <= at < cells && (forall|p: usize|
                            p < j + 1 ==> #[trigger] place(index, p, i) != at) implies #[trigger] grid@[at]
                        == before[at] by {
                        assert(place(index, j, i) != at);
                        assert(place(index, (next - 1) as usize, i) != at);
                    }
                }
            } else {
                proof {
                    assert forall|p: usize| p < j + 1 implies grid@[#[trigger] place(
                        index,
                        p,
                        i,
                    ) as int] == rolling(seen, start, next as int, p as int) by {
                        if p < start {
                            lemma_settled_agree(seen_before, seen, start - 1, p as int);
                        }
                    }
                }
            }
            j += 1;
        }
        proof {
            let line = line_of(old(grid)@, placing(index), len_tilt, i);
            assert(line =~= seen);
            lemma_stretch_settled(seen, start, next as int, len_tilt as int);
            assert forall|p: usize| p < len_tilt implies grid@[#[trigger] place(index, p, i) as int]
                == settled(line)[p as int] by {
                if p < start {
                    assert(rolling(seen, start, next as int, p as int) == settled(seen)[p as int]);
                }
            }
            assert forall|p: usize, done: usize|
                p < len_tilt && done < i + 1 implies grid@[#[trigger] place(index, p, done) as int]
                == settled(line_of(old(grid)@, placing(index), len_tilt, done))[p as int] by {
                if done < i {
                    assert(forall|q: usize|
                        q < len_tilt ==> #[trigger] place(index, q, i) != place(index, p, done));
                    assert(before[place(index, p, done) as int] == settled(
                        line_of(old(grid)@, placing(index), len_tilt, done),
                    )[p as int]);
                }
            }
            assert forall|at: int|
                0 <= at < cells && (forall|p: usize, done: usize|
                    p < len_tilt && done < i + 1 ==> #[trigger] place(index, p, done) != at)
                implies #[trigger] grid@[at] == old(grid)@[at] by {
                assert(forall|p: usize| p < len_tilt ==> #[trigger] place(index, p, i) != at);
                assert(forall|p: usize, done: usize|
                    p < len_tilt && done < i ==> #[trigger] place(index, p, done) != at);
            }
        }
        i += 1;
    }
    proof {
        let layout = placing(index);
        assert forall|at: int| 0 <= at < cells implies grid@[at] == tilted(
            old(grid)@,
            layout,
            len_tilt,
            len_non_tilt,
        )[at] by {
            if on_a_line(layout, len_tilt, len_non_tilt, at) {
                let (j, k) = choose|j: usize, k: usize|
                    j < len_tilt && k < len_non_tilt && #[trigger] layout(j, k) == at;
                assert(grid@[place(index, j, k) as int] == settled(
                    line_of(old(grid)@, layout, len_tilt, k),
                )[j as int]);
            } else {
                assert forall|j: usize, done: usize|
                    j < len_tilt && done < len_non_tilt implies #[trigger] place(index, j, done)
                    != at by {
                    assert(layout(j, done) == place(index, j, done));
                }
            }
        }
        assert(grid@ =~= tilted(old(grid)@, layout, len_tilt, len_non_tilt));
    }
}

/// The places of a grid stored row by row, `width` cells to a row, seen
/// from the north: the lines are the columns, read from the top.
pub open spec fn from_north(width: usize) -> spec_fn(usize, usize) -> usize {
    |y: usize, x: usize| (y * width + x) as usize
}

/// The places seen from the west: the lines are the rows, read from the
/// left.
pub open spec fn from_west(width: usize) -> spec_fn(usize, usize) -> usize {
    |x: usize, y: usize| (y * width + x) as usize
}

/// The places seen from the south: the lines are the columns, read from
/// the bottom.
pub open spec fn from_south(height: usize, width: usize) -> spec_fn(usize, usize) -> usize {
    |y: usize, x: usize| ((height - 1 - y) * width + x) as usize
}

/// The places seen from the east: the lines are the rows, read from the
/// right.
pub open spec fn from_east(width: usize) -> spec_fn(usize, usize) -> usize {
    |x: usize, y: usize| (y * width + (width - 1 - x)) as usize
}

/// A grid after one round of tilting: to the north, to the west, to the
/// south and to the east.
pub open spec fn spun(grid: Seq<u8>, height: usize, width: usize) -> Seq<u8> {
    tilted(
        tilted(
            tilted(tilted(grid, from_north(width), height, width), from_west(width), width, height),
            from_south(height, width),
            height,
            width,
        ),
        from_east(width),
        width,
        height,
    )
}

/// Row by row every cell of a grid has a place of its own among the
/// `height * width` places.
pub proof fn lemma_row_major(height: int, width: int, row: int, col: int, row2: int, col2: int)
    requires
        0 <= row < height,
        0 <= col < width,
        0 <= row2 < height,
        0 <= col2 < width,
    ensures
        0 <= row * width + col < height * width,
        row * width + col == row2 * width + col2 ==> row == row2 && col == col2,
{
    assert(0 <= row * width + col < height * width) by (nonlinear_arith)
        requires
            0 <= row < height,
            0 <= col < width,
    ;
    assert(row * width + col == row2 * width + col2 ==> row == row2 && col == col2)
        by (nonlinear_arith)
        requires
            0 <= row,
            0 <= row2,
            0 <= col < width,
            0 <= col2 < width,
    ;
}

/// Tilting with an `index` that gives the places of `layout` tilts as
/// `layout` says.
proof fn lemma_tilted_as<F: Fn(usize, usize) -> usize>(
    grid: Seq<u8>,
    index: F,
    layout: spec_fn(usize, usize) -> usize,
    len_tilt: usize,
    len_non_tilt: usize,
)
    requires
        lays_out(index, len_tilt, len_non_tilt, grid.len() as int),
        all_placed(index, len_tilt, len_non_tilt),
        forall|j: usize, i: usize, at: usize|
            j < len_tilt && i < len_non_tilt && #[trigger] call_ensures(index, (j, i), at) ==> at
                == layout(j, i),
    ensures
        tilted(grid, placing(index), len_tilt, len_non_tilt) == tilted(
            grid,
            layout,
            len_tilt,
            len_non_tilt,
        ),
{
    let given = placing(index);
    assert forall|j: usize, i: usize| j < len_tilt && i < len_non_tilt implies #[trigger] given(
        j,
        i,
    ) == layout(j, i) by {
        assert(call_ensures(index, (j, i), place(index, j, i)));
    }
    assert forall|j: usize, i: usize, j2: usize, i2: usize|
        j < len_tilt && i < len_non_tilt && j2 < len_tilt && i2 < len_non_tilt
            && #[trigger] given(j, i) == #[trigger] given(j2, i2) implies j == j2 && i == i2 by {
        assert(call_ensures(index, (j, i), place(index, j, i)));
        assert(call_ensures(index, (j2, i2), place(index, j2, i2)));
    }
    lemma_tilted_agree(grid, given, layout, len_tilt, len_non_tilt);
}

/// One round of tilting a grid of `height` rows, stored row by row with
/// `width` cells to a row: to the north, to the west, to the south and to
/// the east.
pub fn tilt_cycle(grid: &mut [u8], height: usize, width: usize)
    requires
        old(grid)@.len() == height * width,
    ensures
        final(grid)@ == spun(old(grid)@, height, width),
{
    let ghost cells = grid.len() as int;
    proof {
        assert(cells == grid@.len());
        assert forall|row: int, col: int, row2: int, col2: int|
            0 <= row < height && 0 <= col < width && 0 <= row2 < height && 0 <= col2
                < width implies 0 <= #[trigger] (row * width + col) < cells && (row * width + col
            == #[trigger] (row2 * width + col2) ==> row == row2 && col == col2) by {
            lemma_row_major(height as int, width as int, row, col, row2, col2);
        }
    }
    let north = |y: usize, x: usize| -> (at: usize)
        requires
            y < height,
            x < width,
        ensures
            at == y * width + x,
        {
            assert(0 <= y * width + x < cells <= usize::MAX);
            assert(0 <= y * width) by (nonlinear_arith);
            y * width + x
        };
    let west = |x: usize, y: usize| -> (at: usize)
        requires
            y < height,
            x < width,
        ensures
            at == y * width + x,
        {
            assert(0 <= y * width + x < cells <= usize::MAX);
            assert(0 <= y * width) by (nonlinear_arith);
            y * width + x
        };
    let south = |y: usize, x: usize| -> (at: usize)
        requires
            y < height,
            x < width,
        ensures
            at == (height - 1 - y) * width + x,
        {
            assert(0 <= (height - 1 - y) * width + x < cells <= usize::MAX);
            assert(0 <= (height - 1 - y) * width) by (nonlinear_arith)
                requires
                    y < height,
            ;
            (height - 1 - y) * width + x
        };
    let east = |x: usize, y: usize| -> (at: usize)
        requires
            y < height,
            x < width,
        ensures
            at == y * width + (width - 1 - x),
        {
            assert(0 <= y * width + (width - 1 - x) < cells <= usize::MAX);
            assert(0 <= y * width) by (nonlinear_arith);
            y * width + (width - 1 - x)
        };
    let ghost first = grid@;
    tilt(height, width, grid, north);
    proof {
        lemma_tilted_as(first, north, from_north(width), height, width);
    }
    let ghost second = grid@;
    tilt(width, height, grid, west);
    proof {
        lemma_tilted_as(second, west, from_west(width), width, height);
    }
    let ghost third = grid@;
    tilt(height, width, grid, south);
    proof {
        lemma_tilted_as(third, south, from_south(height, width), height, width);
    }
    let ghost fourth = grid@;
    tilt(width, height, grid, east);
    proof {
        lemma_tilted_as(fourth, east, from_east(width), width, height);
    }
}

/// No grid weighs more than all its cells would in the first row.
proof fn lemma_load_at_most(grid: Seq<u8>, height: int, width: int, upto: int)
    requires
        0 <= upto <= grid.len(),
        0 <= height,
        forall|i: int| 0 <= i < grid.len() && grid[i] == ROUND_ROCK ==> 0 <= i / width,
    ensures
        load(grid, height, width, upto) <= height * upto,
    decreases upto,
{
    if upto > 0 {
        lemma_load_at_most(grid, height, width, upto - 1);
        assert(height * upto == height * (upto - 1) + height) by (nonlinear_arith);
    }
}

/// The load of a grid of `height` rows with `width` cells each.
fn weigh(grid: &[u8], height: usize, width: usize) -> (total: usize)
    requires
        grid@.len() == height * width,
        height * grid@.len() <= usize::MAX,
    ensures
        total == load(grid@, height as int, width as int, grid@.len() as int),
{
    proof {
        assert forall|i: int| 0 <= i < grid@.len() && grid@[i] == ROUND_ROCK implies width > 0 && i
            / (width as int) <= height by {
            assert(width > 0) by (nonlinear_arith)
                requires
                    0 <= i < height * width,
            ;
            assert(i / (width as int) < height) by (nonlinear_arith)
                requires
                    0 <= i < height * width,
                    width > 0,
            ;
        }
        assert forall|i: int| 0 <= i < grid@.len() && grid@[i] == ROUND_ROCK implies 0 <= i / (
        width as int) by {
            assert(0 <= i / (width as int)) by (nonlinear_arith)
                requires
                    0 <= i,
                    width > 0,
            ;
        }
        lemma_load_at_most(grid@, height as int, width as int, grid@.len() as int);
    }
    eval_grid(grid, height, width)
}

/// The load of a grid of `height` rows, stored row by row with `width`
/// cells to a row, after it has been tilted to the north.
pub fn part1(grid: Vec<u8>, height: usize, width: usize) -> (total: usize)
    requires
        grid@.len() == height * width,
        height * grid@.len() <= usize::MAX,
    ensures
        total == load(
            tilted(grid@, from_north(width), height, width),
            height as int,
            width as int,
            grid@.len() as int,
        ),
{
    let mut grid = grid;
    let ghost cells = grid.len() as int;
    let ghost first = grid@;
    proof {
        assert(cells == grid@.len());
        assert forall|row: int, col: int, row2: int, col2: int|
            0 <= row < height && 0 <= col < width && 0 <= row2 < height && 0 <= col2
                < width implies 0 <= #[trigger] (row * width + col) < cells && (row * width + col
            == #[trigger] (row2 * width + col2) ==> row == row2 && col == col2) by {
            lemma_row_major(height as int, width as int, row, col, row2, col2);
        }
    }
    let north = |y: usize, x: usize| -> (at: usize)
        requires
            y < height,
            x < width,
        ensures
            at == y * width + x,
        {
            assert(0 <= y * width + x < cells <= usize::MAX);
            assert(0 <= y * width) by (nonlinear_arith);
            y * width + x
        };
    tilt(height, width, grid.as_mut_slice(), north);
    proof {
        lemma_tilted_as(first, north, from_north(width), height, width);
    }
    weigh(grid.as_slice(), height, width)
}

/// The number of rounds of tilting that the platform goes through.
pub const ROUNDS: usize = 1_000_000_000;

/// A grid after `rounds` rounds of tilting.
pub open spec fn after_rounds(grid: Seq<u8>, height: usize, width: usize, rounds: int) -> Seq<u8>
    decreases rounds,
{
    if rounds <= 0 {
        grid
    } else {
        spun(after_rounds(grid, height, width, rounds - 1), height, width)
    }
}

/// Tilting leaves the number of cells as it is.
pub proof fn lemma_after_rounds_len(grid: Seq<u8>, height: usize, width: usize, rounds: int)
    ensures
        after_rounds(grid, height, width, rounds).len() == grid.len(),
    decreases rounds,
{
    if rounds > 0 {
        lemma_after_rounds_len(grid, height, width, rounds - 1);
    }
}

/// Once a grid comes back after `period` more rounds, every later grid
/// comes back after `period` more rounds.
proof fn lemma_comes_back(
    grid: Seq<u8>,
    height: usize,
    width: usize,
    start: int,
    period: int,
    rounds: int,
)
    requires
        0 <= start <= rounds,
        period >= 0,
        after_rounds(grid, height, width, start + period) == after_rounds(
            grid,
            height,
            width,
            start,
        ),
    ensures
        after_rounds(grid, height, width, rounds + period) == after_rounds(
            grid,
            height,
            width,
            rounds,
        ),
    decreases rounds - start,
{
    if rounds > start {
        lemma_comes_back(grid, height, width, start, period, rounds - 1);
    }
}

/// Once a grid comes back after `period` more rounds, the grid after any
/// number of rounds from then on is one of the first `period` grids from
/// then on.
proof fn lemma_goes_round(
    grid: Seq<u8>,
    height: usize,
    width: usize,
    start: int,
    period: int,
    beyond: int,
)
    requires
        0 <= start,
        period >= 1,
        0 <= beyond,
        after_rounds(grid, height, width, start + period) == after_rounds(
            grid,
            height,
            width,
            start,
        ),
    ensures
        after_rounds(grid, height, width, start + beyond) == after_rounds(
            grid,
            height,
            width,
            start + beyond % period,
        ),
    decreases beyond,
{
    if beyond >= period {
        lemma_goes_round(grid, height, width, start, period, beyond - period);
        lemma_comes_back(grid, height, width, start, period, start + beyond - period);
        assert((beyond - period) % period == beyond % period) by (nonlinear_arith)
            requires
                period >= 1,
                beyond >= period,
        ;
    } else {
        assert(beyond % period == beyond) by (nonlinear_arith)
            requires
                0 <= beyond < period,
        ;
    }
}

/// What holds of the map of grids after `rounds` rounds: it holds the
/// grids after each number of rounds up to `rounds`, each with that number,
/// and nothing else.
spec fn records_rounds(
    seen: Map<Seq<u8>, usize>,
    first: Seq<u8>,
    height: usize,
    width: usize,
    rounds: int,
) -> bool {
    &&& seen.dom().finite()
    &&& seen.dom().len() == rounds + 1
    &&& forall|j: int|
        0 <= j <= rounds ==> seen.dom().contains(#[trigger] after_rounds(first, height, width, j))
            && seen[after_rounds(first, height, width, j)] == j
    &&& forall|grid: Seq<u8>| #[trigger]
        seen.dom().contains(grid) ==> seen[grid] <= rounds && after_rounds(
            first,
            height,
            width,
            seen[grid] as int,
        ) == grid
}

/// The load of a grid of `height` rows, stored row by row with `width`
/// cells to a row, after a thousand million rounds of tilting.
///
/// The rounds are not all gone through: as soon as a grid comes back, the
/// grid after the last round is known to be one of those met since.
pub fn part2(grid: Vec<u8>, height: usize, width: usize) -> (total: usize)
    requires
        grid@.len() == height * width,
        height * grid@.len() <= usize::MAX,
    ensures
        total == load(
            after_rounds(grid@, height, width, ROUNDS as int),
            height as int,
            width as int,
            grid@.len() as int,
        ),
{
    let ghost first = grid@;
    let mut current = grid;
    let mut seen = nothing_seen();
    let copy = current.clone();
    assert(copy@ =~= current@);
    record(&mut seen, copy, 0);
    let mut rounds: usize = 0;
    proof {
        assert(recorded(seen).dom() =~= Set::<Seq<u8>>::empty().insert(first));
        assert forall|j: int| 0 <= j <= 0 implies recorded(seen).dom().contains(
            #[trigger] after_rounds(first, height, width, j),
        ) && recorded(seen)[after_rounds(first, height, width, j)] == j by {
            assert(after_rounds(first, height, width, 0) == first);
        }
    }
    while rounds < ROUNDS
        invariant
            rounds <= ROUNDS,
            first == grid@,
            first.len() == height * width,
            height * first.len() <= usize::MAX,
            current@ == after_rounds(first, height, width, rounds as int),
            records_rounds(recorded(seen), first, height, width, rounds as int),
        decreases ROUNDS - rounds,
    {
        proof {
            lemma_after_rounds_len(first, height, width, rounds as int);
            lemma_after_rounds_len(first, height, width, rounds + 1);
        }
        let ghost before = recorded(seen);
        tilt_cycle(current.as_mut_slice(), height, width);
        rounds += 1;
        let number = count(&seen);
        let copy = current.clone();
        assert(copy@ =~= current@);
        match record(&mut seen, copy, number) {
            Some(cycle_start) => {
                assert(number == rounds);
                assert(before.dom().contains(current@));
                assert(cycle_start == before[current@]);
                assert(cycle_start < rounds);
                assert(after_rounds(first, height, width, cycle_start as int) == current@);
                let cycle_len = number - cycle_start;
                let idx_in_cycle = (ROUNDS - cycle_start) % cycle_len;
                proof {
                    assert(cycle_start + cycle_len == rounds);
                    lemma_goes_round(
                        first,
                        height,
                        width,
                        cycle_start as int,
                        cycle_len as int,
                        ROUNDS - cycle_start,
                    );
                    lemma_after_rounds_len(first, height, width, ROUNDS as int);
                }
                assert(after_rounds(first, height, width, ROUNDS as int) == after_rounds(
                    first,
                    height,
                    width,
                    cycle_start + idx_in_cycle,
                ));
                if idx_in_cycle == 0 {
                    return weigh(current.as_slice(), height, width);
                }
                let idx_in_path = idx_in_cycle + cycle_start;
                let entries = all_recorded(&seen);
                let ghost target = after_rounds(first, height, width, idx_in_path as int);
                proof {
                    assert(idx_in_cycle < cycle_len) by (nonlinear_arith)
                        requires
                            idx_in_cycle == (ROUNDS - cycle_start) % (cycle_len as int),
                            cycle_len >= 1,
                    ;
                    assert(before.dom().contains(target) && before[target] == idx_in_path);
                    assert(recorded(seen).dom().contains(target));
                }
                let ghost found = choose|i: int|
                    0 <= i < entries@.len() && (#[trigger] entries@[i]).0@ == target;
                assert(entries@.len() == entries.len());
                let mut i: usize = 0;
                loop
                    invariant
                        first == grid@,
                        i <= found < entries@.len(),
                        entries@.len() <= usize::MAX,
                        entries@[found].1 == idx_in_path,
                        first.len() == height * width,
                        height * first.len() <= usize::MAX,
                        target == after_rounds(first, height, width, idx_in_path as int),
                        target == after_rounds(first, height, width, ROUNDS as int),
                        target.len() == first.len(),
                        idx_in_path != number,
                        forall|k: int|
                            0 <= k < entries@.len() ==> recorded(seen).dom().contains(
                                (#[trigger] entries@[k]).0@,
                            ) && recorded(seen)[entries@[k].0@] == entries@[k].1,
                        recorded(seen) == before.insert(current@, number),
                        forall|other: Seq<u8>| #[trigger]
                            before.dom().contains(other) ==> after_rounds(
                                first,
                                height,
                                width,
                                before[other] as int,
                            ) == other,
                    decreases found - i,
                {
                    if entries[i].1 == idx_in_path {
                        proof {
                            let met = entries@[i as int].0@;
                            assert(recorded(seen).dom().contains(met));
                            assert(recorded(seen)[met] == idx_in_path);
                            assert(met != current@);
                            assert(before.dom().contains(met));
                            assert(before[met] == idx_in_path);
                            assert(met == target);
                        }
                        return weigh(entries[i].0.as_slice(), height, width);
                    }
                    i += 1;
                }
            },
            None => {
                proof {
                    assert(recorded(seen).dom() =~= before.dom().insert(current@));
                    assert forall|j: int| 0 <= j <= rounds implies recorded(seen).dom().contains(
                        #[trigger] after_rounds(first, height, width, j),
                    ) && recorded(seen)[after_rounds(first, height, width, j)] == j by {
                        if j < rounds {
                            assert(before.dom().contains(after_rounds(first, height, width, j)));
                        }
                    }
                }
            },
        }
    }
    proof {
        lemma_after_rounds_len(first, height, width, ROUNDS as int);
    }
    weigh(current.as_slice(), height, width)
}

} // verus!
