use vstd::prelude::*;
use vstd::string::StringSliceAdditionalSpecFns;
use itertools::Itertools;
use crate::modules::{next_line, text_lines};
use crate::trails::{cell_if_any, grid_neighbors, spec_grid_neighbors, Graph, MAX_SIZE};

verus! {

/// Why a map of trails shows no graph.
#[derive(Debug, Clone, Copy, PartialEq, Eq)]
pub enum MapError {
    /// The map has no row.
    Empty,
    /// The rows of the map are not of one length.
    Ragged,
    /// A trail has more tiles than a weight can count.
    TooLong,
    /// The map has more trails than a graph has nodes.
    TooManyNodes,
    /// A slope does not lie between the ends of two trails.
    SlopeUnconnected,
    /// No trail ends in the first row.
    NoStart,
    /// No trail ends in the last row.
    NoTarget,
}

/// The byte of a tile of a trail: `.`.
pub open spec fn path() -> u8 {
    '.' as u8
}

/// The rows of a grid as sequences of bytes.
pub open spec fn rows_of(grid: Seq<&[u8]>) -> Seq<Seq<u8>> {
    Seq::new(grid.len(), |row: int| grid[row]@)
}

/// The tile in row `row` and column `col` with its byte, as a sequence of
/// one item, or the empty sequence where the map has no such tile.
pub open spec fn tile_if_any(rows: Seq<Seq<u8>>, row: int, col: int) -> Seq<(usize, usize, u8)> {
    if 0 <= row < rows.len() && 0 <= col < rows[row].len() {
        seq![(row as usize, col as usize, rows[row][col])]
    } else {
        Seq::empty()
    }
}

/// The tiles next to the one in row `y` and column `x`: the one below, the
/// one to the right, the one above and the one to the left, in this order,
/// as far as the map has them.
pub open spec fn near(rows: Seq<Seq<u8>>, y: int, x: int) -> Seq<(usize, usize, u8)> {
    tile_if_any(rows, y + 1, x) + tile_if_any(rows, y, x + 1) + tile_if_any(rows, y - 1, x)
        + tile_if_any(rows, y, x - 1)
}

/// The tiles next to a tile of a grid are those next to it in its rows.
proof fn lemma_near(grid: Seq<&[u8]>, y: int, x: int)
    ensures
        spec_grid_neighbors(grid, y, x) == near(rows_of(grid), y, x),
{
    assert(cell_if_any(grid, y + 1, x) == tile_if_any(rows_of(grid), y + 1, x));
    assert(cell_if_any(grid, y, x + 1) == tile_if_any(rows_of(grid), y, x + 1));
    assert(cell_if_any(grid, y - 1, x) == tile_if_any(rows_of(grid), y - 1, x));
    assert(cell_if_any(grid, y, x - 1) == tile_if_any(rows_of(grid), y, x - 1));
}

/// Every tile next to a tile lies in the map, and bears its byte.
proof fn lemma_near_in_map(rows: Seq<Seq<u8>>, y: int, x: int, at: int)
    requires
        y < usize::MAX,
        x < usize::MAX,
        0 <= at < near(rows, y, x).len(),
    ensures
        near(rows, y, x).len() <= 4,
        near(rows, y, x)[at].0 < rows.len(),
        near(rows, y, x)[at].1 < rows[near(rows, y, x)[at].0 as int].len(),
        near(rows, y, x)[at].2 == rows[near(rows, y, x)[at].0 as int][near(rows, y, x)[at].1 as int],
{
    let below = tile_if_any(rows, y + 1, x);
    let right = tile_if_any(rows, y, x + 1);
    let above = tile_if_any(rows, y - 1, x);
    let left = tile_if_any(rows, y, x - 1);
    if at < below.len() {
        assert(near(rows, y, x)[at] == below[at]);
    } else if at < below.len() + right.len() {
        assert(near(rows, y, x)[at] == right[at - below.len()]);
    } else if at < below.len() + right.len() + above.len() {
        assert(near(rows, y, x)[at] == above[at - below.len() - right.len()]);
    } else {
        assert(near(rows, y, x)[at] == left[at - below.len() - right.len() - above.len()]);
    }
}

/// Where the tiles of trails among the first `upto` of `tiles` lie.
pub open spec fn paths_among(tiles: Seq<(usize, usize, u8)>, upto: int) -> Seq<(usize, usize)>
    decreases upto,
{
    if upto <= 0 {
        Seq::empty()
    } else if tiles[upto - 1].2 == path() {
        paths_among(tiles, upto - 1).push((tiles[upto - 1].0, tiles[upto - 1].1))
    } else {
        paths_among(tiles, upto - 1)
    }
}

/// The tiles of trails among the first `upto` of `tiles` that do not lie at
/// `prev`.
pub open spec fn onward_among(tiles: Seq<(usize, usize, u8)>, prev: (usize, usize), upto: int) -> Seq<
    (usize, usize, u8),
>
    decreases upto,
{
    if upto <= 0 {
        Seq::empty()
    } else if (tiles[upto - 1].0, tiles[upto - 1].1) != prev && tiles[upto - 1].2 == path() {
        onward_among(tiles, prev, upto - 1).push(tiles[upto - 1])
    } else {
        onward_among(tiles, prev, upto - 1)
    }
}

/// Where the tiles of trails next to the tile in row `y` and column `x`
/// lie.
pub open spec fn paths_near(rows: Seq<Seq<u8>>, y: int, x: int) -> Seq<(usize, usize)> {
    paths_among(near(rows, y, x), near(rows, y, x).len() as int)
}

/// The tiles of trails next to the tile at `cur` other than the one at
/// `prev`.
pub open spec fn onward(rows: Seq<Seq<u8>>, prev: (usize, usize), cur: (usize, usize)) -> Seq<
    (usize, usize, u8),
> {
    onward_among(
        near(rows, cur.0 as int, cur.1 as int),
        prev,
        near(rows, cur.0 as int, cur.1 as int).len() as int,
    )
}

/// What `Itertools::at_most_one` makes of the items: nothing where there
/// is none, the item where there is one, and a refusal, here `None`, where
/// there are more.
#[verifier::external_body]
fn at_most_one(found: Vec<(usize, usize)>) -> (one: Option<Option<(usize, usize)>>)
    ensures
        one == if found@.len() == 0 {
            Some(None::<(usize, usize)>)
        } else if found@.len() == 1 {
            Some(Some(found@[0]))
        } else {
            None
        },
{
    found.into_iter().at_most_one().ok()
}

/// What `Itertools::exactly_one` makes of the items: the item where there
/// is one, and a refusal, here `None`, where there are none or more.
#[verifier::external_body]
fn exactly_one(found: Vec<(usize, usize, u8)>) -> (one: Option<(usize, usize, u8)>)
    ensures
        one == if found@.len() == 1 {
            Some(found@[0])
        } else {
            None
        },
{
    found.into_iter().exactly_one().ok()
}

/// Where the tiles of trails next to the tile in row `y` and column `x`
/// lie.
fn open_tiles(grid: &[&[u8]], y: usize, x: usize) -> (found: Vec<(usize, usize)>)
    requires
        y < usize::MAX,
        x < usize::MAX,
    ensures
        found@ == paths_near(rows_of(grid@), y as int, x as int),
{
    let tiles = grid_neighbors(y, x, grid);
    proof {
        lemma_near(grid@, y as int, x as int);
    }
    let mut found: Vec<(usize, usize)> = Vec::new();
    let mut at: usize = 0;
    while at < tiles.len()
        invariant
            at <= tiles@.len(),
            found@ == paths_among(tiles@, at as int),
        decreases tiles@.len() - at,
    {
        let (ny, nx, mark) = tiles[at];
        if mark == '.' as u8 {
            found.push((ny, nx));
        }
        at += 1;
    }
    found
}

/// The tiles of trails next to the tile at `cur` other than the one at
/// `prev`.
fn ways_on(grid: &[&[u8]], prev: (usize, usize), cur: (usize, usize)) -> (found: Vec<
    (usize, usize, u8),
>)
    requires
        cur.0 < usize::MAX,
        cur.1 < usize::MAX,
    ensures
        found@ == onward(rows_of(grid@), prev, cur),
{
    let tiles = grid_neighbors(cur.0, cur.1, grid);
    proof {
        lemma_near(grid@, cur.0 as int, cur.1 as int);
    }
    let mut found: Vec<(usize, usize, u8)> = Vec::new();
    let mut at: usize = 0;
    while at < tiles.len()
        invariant
            at <= tiles@.len(),
            found@ == onward_among(tiles@, prev, at as int),
        decreases tiles@.len() - at,
    {
        let (ny, nx, mark) = tiles[at];
        if (ny != prev.0 || nx != prev.1) && mark == '.' as u8 {
            found.push(tiles[at]);
        }
        at += 1;
    }
    found
}

/// Where the trail ends that comes from `prev` to `cur`, and how many
/// tiles it has, `len` of them up to `cur`: the trail goes on while one
/// tile of a trail lies next to its last tile, not counting the tile
/// before. Nothing where the trail has more tiles than a weight can count.
pub open spec fn trail_end(rows: Seq<Seq<u8>>, prev: (usize, usize), cur: (usize, usize), len: int) -> Option<
    ((usize, usize), u16),
>
    decreases u16::MAX - len,
{
    if len > u16::MAX || len < 0 {
        None
    } else if onward(rows, prev, cur).len() == 1 {
        if len == u16::MAX {
            None
        } else {
            trail_end(
                rows,
                cur,
                (onward(rows, prev, cur)[0].0, onward(rows, prev, cur)[0].1),
                len + 1,
            )
        }
    } else {
        Some((cur, len as u16))
    }
}

/// Every tile that a trail goes on to lies in the map.
proof fn lemma_onward_in_map(tiles: Seq<(usize, usize, u8)>, prev: (usize, usize), upto: int, at: int)
    requires
        0 <= upto <= tiles.len(),
        0 <= at < onward_among(tiles, prev, upto).len(),
    ensures
        exists|from: int| 0 <= from < upto && tiles[from] == onward_among(tiles, prev, upto)[at],
    decreases upto,
{
    if upto > 0 {
        if at < onward_among(tiles, prev, upto - 1).len() {
            lemma_onward_in_map(tiles, prev, upto - 1, at);
        } else {
            assert(tiles[upto - 1] == onward_among(tiles, prev, upto)[at]);
        }
    }
}

/// Every tile of a trail next to a tile lies in the map.
proof fn lemma_paths_in_map(tiles: Seq<(usize, usize, u8)>, upto: int, at: int)
    requires
        0 <= upto <= tiles.len(),
        0 <= at < paths_among(tiles, upto).len(),
    ensures
        exists|from: int|
            0 <= from < upto && (#[trigger] tiles[from]).0 == paths_among(tiles, upto)[at].0
                && tiles[from].1 == paths_among(tiles, upto)[at].1,
    decreases upto,
{
    if upto > 0 {
        if at < paths_among(tiles, upto - 1).len() {
            lemma_paths_in_map(tiles, upto - 1, at);
        } else {
            assert(tiles[upto - 1].0 == paths_among(tiles, upto)[at].0);
        }
    }
}

/// Follows the trail that comes from `prev` to `cur` to its end.
fn walk(grid: &[&[u8]], prev: (usize, usize), cur: (usize, usize)) -> (end: Option<
    ((usize, usize), u16),
>)
    requires
        cur.0 < grid@.len(),
        cur.1 < grid@[cur.0 as int]@.len(),
    ensures
        end == trail_end(rows_of(grid@), prev, cur, 2),
        end matches Some((last, _)) ==> last.0 < grid@.len() && last.1 < grid@[last.0 as int]@.len(),
{
    let mut len: u16 = 2;
    let mut before = prev;
    let mut here = cur;
    let height = grid.len();
    loop
        invariant
            height == grid@.len(),
            2 <= len,
            here.0 < grid@.len(),
            here.1 < grid@[here.0 as int]@.len(),
            trail_end(rows_of(grid@), prev, cur, 2) == trail_end(
                rows_of(grid@),
                before,
                here,
                len as int,
            ),
        decreases u16::MAX - len,
    {
        let width = grid[here.0].len();
        let next = match exactly_one(ways_on(grid, before, here)) {
            Some(next) => next,
            None => {
                return Some((here, len));
            },
        };
        if len == u16::MAX {
            return None;
        }
        proof {
            let rows = rows_of(grid@);
            let tiles = near(rows, here.0 as int, here.1 as int);
            lemma_onward_in_map(tiles, before, tiles.len() as int, 0);
            let from = choose|from: int|
                0 <= from < tiles.len() && tiles[from] == onward_among(
                    tiles,
                    before,
                    tiles.len() as int,
                )[0];
            lemma_near_in_map(rows, here.0 as int, here.1 as int, from);
        }
        len += 1;
        before = here;
        here = (next.0, next.1);
    }
}

/// The map has a row, and all its rows are of one length.
pub open spec fn is_map(rows: Seq<Seq<u8>>) -> bool {
    &&& rows.len() >= 1
    &&& forall|row: int| 0 <= row < rows.len() ==> (#[trigger] rows[row]).len() == rows[0].len()
}

/// What is known of the trails of a map: for each tile the number of the
/// trail that ends there, if one is known to, and for each trail the number
/// of its tiles.
pub struct Survey {
    pub ends: Seq<Seq<Option<usize>>>,
    pub weights: Seq<u16>,
}

impl Survey {
    /// Nothing is known of a map of `height` rows of `width` tiles.
    pub open spec fn blank(height: int, width: int) -> Survey {
        Survey {
            ends: Seq::new(height as nat, |y: int| Seq::new(width as nat, |x: int| None::<usize>)),
            weights: Seq::empty(),
        }
    }

    /// The number of trails that are known.
    pub open spec fn count(self) -> int {
        self.weights.len() as int
    }

    /// The ends with the tile in row `y` and column `x` as an end of the
    /// next trail.
    pub open spec fn marked(self, y: int, x: int) -> Seq<Seq<Option<usize>>> {
        self.ends.update(y, self.ends[y].update(x, Some(self.count() as usize)))
    }

    /// What is known after the tile in row `y` and column `x` has been
    /// looked at. A tile of a trail of which no end is known, with at most
    /// one tile of a trail next to it, is the end of a trail that is not
    /// known yet: of the trail that goes on from it to the tile next to it,
    /// or, where there is none, of a trail of one tile. The trail gets the
    /// next number. Any other tile tells nothing.
    pub open spec fn with_tile(self, rows: Seq<Seq<u8>>, y: int, x: int) -> Result<Survey, MapError> {
        if rows[y][x] != path() || self.ends[y][x] is Some {
            Ok(self)
        } else if paths_near(rows, y, x).len() > 1 {
            Ok(self)
        } else if paths_near(rows, y, x).len() == 1 {
            match trail_end(rows, (y as usize, x as usize), paths_near(rows, y, x)[0], 2) {
                None => Err(MapError::TooLong),
                Some((end, len)) => if self.count() >= MAX_SIZE {
                    Err(MapError::TooManyNodes)
                } else {
                    Ok(
                        Survey {
                            ends: (Survey { ends: self.marked(y, x), ..self }).marked(
                                end.0 as int,
                                end.1 as int,
                            ),
                            weights: self.weights.push(len),
                        },
                    )
                },
            }
        } else if self.count() >= MAX_SIZE {
            Err(MapError::TooManyNodes)
        } else {
            Ok(Survey { ends: self.marked(y, x), weights: self.weights.push(1) })
        }
    }

    /// What is known after the tiles before the one in row `y` and column
    /// `x` have been looked at, row by row.
    pub open spec fn after(rows: Seq<Seq<u8>>, y: int, x: int) -> Result<Survey, MapError>
        decreases y, x,
    {
        if x > 0 {
            match Survey::after(rows, y, x - 1) {
                Ok(survey) => survey.with_tile(rows, y, x - 1),
                Err(fault) => Err(fault),
            }
        } else if y > 0 {
            Survey::after(rows, y - 1, rows[0].len() as int)
        } else {
            Ok(Survey::blank(rows.len() as int, rows[0].len() as int))
        }
    }

    /// The survey fits the map: it has a place for every tile, no more
    /// trails than a graph has nodes, and every end is that of a trail that
    /// is known.
    pub open spec fn sound(self, rows: Seq<Seq<u8>>) -> bool {
        &&& self.ends.len() == rows.len()
        &&& forall|y: int| 0 <= y < rows.len() ==> (#[trigger] self.ends[y]).len() == rows[0].len()
        &&& self.count() <= MAX_SIZE
        &&& forall|y: int, x: int|
            0 <= y < rows.len() && 0 <= x < rows[0].len() ==> (
            #[trigger] self.ends[y][x] matches Some(trail) ==> trail < self.count())
    }
}

/// Once a fault is met, it stays.
proof fn lemma_survey_fault_stays(rows: Seq<Seq<u8>>, y: int, x: int, row: int, col: int)
    requires
        Survey::after(rows, y, x) is Err,
        0 <= y,
        0 <= x <= rows[0].len(),
        0 <= col <= rows[0].len(),
        y < row || (y == row && x <= col),
    ensures
        Survey::after(rows, row, col) == Survey::after(rows, y, x),
    decreases row - y, col,
{
    if y == row && x == col {
    } else if col > 0 {
        lemma_survey_fault_stays(rows, y, x, row, col - 1);
    } else {
        lemma_survey_fault_stays(rows, y, x, row - 1, rows[0].len() as int);
    }
}

/// A survey of a map of `height` rows of `width` tiles in which nothing is
/// known.
fn blank_ends(height: usize, width: usize) -> (ends: Vec<Vec<Option<usize>>>)
    ensures
        ends@.len() == height,
        forall|y: int| 0 <= y < height ==> (#[trigger] ends@[y])@ == Survey::blank(
            height as int,
            width as int,
        ).ends[y],
{
    let mut ends: Vec<Vec<Option<usize>>> = Vec::new();
    let mut y: usize = 0;
    while y < height
        invariant
            y <= height,
            ends@.len() == y,
            forall|row: int| 0 <= row < y ==> (#[trigger] ends@[row])@ == Survey::blank(
                height as int,
                width as int,
            ).ends[row],
        decreases height - y,
    {
        let mut row: Vec<Option<usize>> = Vec::new();
        let mut x: usize = 0;
        while x < width
            invariant
                x <= width,
                row@.len() == x,
                forall|col: int| 0 <= col < x ==> #[trigger] row@[col] == None::<usize>,
            decreases width - x,
        {
            row.push(None);
            x += 1;
        }
        proof {
            assert(row@ =~= Survey::blank(height as int, width as int).ends[y as int]);
        }
        ends.push(row);
        y += 1;
    }
    ends
}

/// The ends and the weights hold what the survey says.
pub open spec fn holds(
    survey: Survey,
    ends: Seq<Vec<Option<usize>>>,
    weights: Seq<u16>,
    count: usize,
) -> bool {
    &&& ends.len() == survey.ends.len()
    &&& forall|y: int| 0 <= y < ends.len() ==> (#[trigger] ends[y])@ == survey.ends[y]
    &&& count == survey.count()
    &&& weights.len() == MAX_SIZE
    &&& forall|trail: int| 0 <= trail < count ==> #[trigger] weights[trail] == survey.weights[trail]
    &&& forall|trail: int| count <= trail < MAX_SIZE ==> #[trigger] weights[trail] == 0
}

/// Notes the tile in row `y` and column `x` as an end of trail `trail`.
fn mark(ends: &mut Vec<Vec<Option<usize>>>, y: usize, x: usize, trail: usize)
    requires
        y < old(ends)@.len(),
        x < old(ends)@[y as int]@.len(),
    ensures
        final(ends)@.len() == old(ends)@.len(),
        final(ends)@[y as int]@ == old(ends)@[y as int]@.update(x as int, Some(trail)),
        forall|row: int|
            0 <= row < old(ends)@.len() && row != y ==> (#[trigger] final(ends)@[row])@ == old(
                ends,
            )@[row]@,
{
    ends[y][x] = Some(trail);
}

/// Looks at the tiles of the map row by row, and finds the trails: for
/// each tile the trail that ends there, for each trail the number of its
/// tiles, and the number of trails.
fn survey(grid: &[&[u8]]) -> (found: Result<(Vec<Vec<Option<usize>>>, [u16; 128], usize), MapError>)
    requires
        is_map(rows_of(grid@)),
    ensures
        match found {
            Ok((ends, weights, count)) => Survey::after(rows_of(grid@), grid@.len() as int, 0)
                matches Ok(survey) && survey.sound(rows_of(grid@)) && holds(
                survey,
                ends@,
                weights@,
                count,
            ),
            Err(fault) => Survey::after(rows_of(grid@), grid@.len() as int, 0) == Err::<
                Survey,
                MapError,
            >(fault),
        },
{
    let height = grid.len();
    let width = grid[0].len();
    let ghost rows = rows_of(grid@);
    let mut ends = blank_ends(height, width);
    let mut weights = [0u16; 128];
    let mut count: usize = 0;
    let ghost mut now = Survey::blank(height as int, width as int);
    let mut y: usize = 0;
    while y < height
        invariant
            rows == rows_of(grid@),
            is_map(rows),
            height == grid@.len(),
            width == rows[0].len(),
            y <= height,
            Survey::after(rows, y as int, 0) == Ok::<Survey, MapError>(now),
            now.sound(rows),
            holds(now, ends@, weights@, count),
        decreases height - y,
    {
        let mut x: usize = 0;
        while x < width
            invariant
                rows == rows_of(grid@),
                is_map(rows),
                height == grid@.len(),
                width == rows[0].len(),
                y < height,
                x <= width,
                Survey::after(rows, y as int, x as int) == Ok::<Survey, MapError>(now),
                now.sound(rows),
                holds(now, ends@, weights@, count),
            decreases width - x,
        {
            proof {
                assert(rows[y as int].len() == width);
                assert(rows[y as int] == grid@[y as int]@);
                assert(ends@[y as int]@ == now.ends[y as int]);
            }
            let ghost next = now.with_tile(rows, y as int, x as int);
            if grid[y][x] == '.' as u8 && ends[y][x].is_none() {
                let open = open_tiles(grid, y, x);
                proof {
                    if open@.len() >= 1 {
                        let tiles = near(rows, y as int, x as int);
                        lemma_paths_in_map(tiles, tiles.len() as int, 0);
                        let from = choose|from: int|
                            0 <= from < tiles.len() && (#[trigger] tiles[from]).0 == paths_among(
                                tiles,
                                tiles.len() as int,
                            )[0].0 && tiles[from].1 == paths_among(tiles, tiles.len() as int)[0].1;
                        lemma_near_in_map(rows, y as int, x as int, from);
                        assert(rows[open@[0].0 as int] == grid@[open@[0].0 as int]@);
                    }
                }
                match at_most_one(open) {
                    Some(Some(first)) => {
                        let (end, len) = match walk(grid, (y, x), first) {
                            Some(trail) => trail,
                            None => {
                                proof {
                                    assert(next == Err::<Survey, MapError>(MapError::TooLong));
                                    assert(Survey::after(rows, y as int, x + 1) == next);
                                    lemma_survey_fault_stays(
                                        rows,
                                        y as int,
                                        x + 1,
                                        height as int,
                                        0,
                                    );
                                }
                                return Err(MapError::TooLong);
                            },
                        };
                        if count >= MAX_SIZE {
                            proof {
                                assert(next == Err::<Survey, MapError>(MapError::TooManyNodes));
                                assert(Survey::after(rows, y as int, x + 1) == next);
                                lemma_survey_fault_stays(rows, y as int, x + 1, height as int, 0);
                            }
                            return Err(MapError::TooManyNodes);
                        }
                        proof {
                            assert(rows[end.0 as int] == grid@[end.0 as int]@);
                            assert(rows[end.0 as int].len() == width);
                        }
                        mark(&mut ends, y, x, count);
                        mark(&mut ends, end.0, end.1, count);
                        weights[count] = len;
                        count += 1;
                        proof {
                            now = next.unwrap();
                            assert forall|row: int| 0 <= row < ends@.len() implies (
                            #[trigger] ends@[row])@ == now.ends[row] by {}
                        }
                    },
                    Some(None) => {
                        if count >= MAX_SIZE {
                            proof {
                                assert(next == Err::<Survey, MapError>(MapError::TooManyNodes));
                                assert(Survey::after(rows, y as int, x + 1) == next);
                                lemma_survey_fault_stays(rows, y as int, x + 1, height as int, 0);
                            }
                            return Err(MapError::TooManyNodes);
                        }
                        mark(&mut ends, y, x, count);
                        weights[count] = 1;
                        count += 1;
                        proof {
                            now = next.unwrap();
                            assert forall|row: int| 0 <= row < ends@.len() implies (
                            #[trigger] ends@[row])@ == now.ends[row] by {}
                        }
                    },
                    None => {
                        proof {
                            assert(next == Ok::<Survey, MapError>(now));
                        }
                    },
                }
            } else {
                proof {
                    assert(next == Ok::<Survey, MapError>(now));
                }
            }
            proof {
                assert(Survey::after(rows, y as int, x + 1) == next);
            }
            x += 1;
        }
        proof {
            assert(Survey::after(rows, y + 1, 0) == Survey::after(rows, y as int, width as int));
        }
        y += 1;
    }
    Ok((ends, weights, count))
}

/// No edge leads anywhere.
pub open spec fn no_edges() -> Seq<u128> {
    Seq::new(MAX_SIZE as nat, |node: int| 0u128)
}

/// The edges `adj` and one from `from` to `to`.
pub open spec fn with_edge(adj: Seq<u128>, from: usize, to: usize) -> Seq<u128> {
    adj.update(from as int, adj[from as int] | (1u128 << (to as u128)))
}

/// The edge that two ends give if both are there.
pub open spec fn between(adj: Seq<u128>, from: Option<usize>, to: Option<usize>) -> Result<
    Seq<u128>,
    MapError,
> {
    match (from, to) {
        (Some(from), Some(to)) => Ok(with_edge(adj, from, to)),
        _ => Err(MapError::SlopeUnconnected),
    }
}

/// The edges after the tile in row `y` and column `x` has been looked at.
/// A slope `>` gives an edge from the trail that ends left of it to the
/// trail that ends right of it, a slope `<` one the other way; a slope `v`
/// gives an edge from the trail that ends above it to the trail that ends
/// below it, a slope `^` one the other way. A slope at the rim of the map,
/// or next to a tile where no trail ends, is a fault.
pub open spec fn with_slope(
    adj: Seq<u128>,
    rows: Seq<Seq<u8>>,
    ends: Seq<Seq<Option<usize>>>,
    y: int,
    x: int,
) -> Result<Seq<u128>, MapError> {
    if rows[y][x] == '<' as u8 || rows[y][x] == '>' as u8 {
        if x == 0 || x + 1 >= rows[0].len() {
            Err(MapError::SlopeUnconnected)
        } else if rows[y][x] == '>' as u8 {
            between(adj, ends[y][x - 1], ends[y][x + 1])
        } else {
            between(adj, ends[y][x + 1], ends[y][x - 1])
        }
    } else if rows[y][x] == '^' as u8 || rows[y][x] == 'v' as u8 {
        if y == 0 || y + 1 >= rows.len() {
            Err(MapError::SlopeUnconnected)
        } else if rows[y][x] == 'v' as u8 {
            between(adj, ends[y - 1][x], ends[y + 1][x])
        } else {
            between(adj, ends[y + 1][x], ends[y - 1][x])
        }
    } else {
        Ok(adj)
    }
}

/// The edges after the tiles before the one in row `y` and column `x` have
/// been looked at, row by row.
pub open spec fn sloped(rows: Seq<Seq<u8>>, ends: Seq<Seq<Option<usize>>>, y: int, x: int) -> Result<
    Seq<u128>,
    MapError,
>
    decreases y, x,
{
    if x > 0 {
        match sloped(rows, ends, y, x - 1) {
            Ok(adj) => with_slope(adj, rows, ends, y, x - 1),
            Err(fault) => Err(fault),
        }
    } else if y > 0 {
        sloped(rows, ends, y - 1, rows[0].len() as int)
    } else {
        Ok(no_edges())
    }
}

/// Once a fault is met, it stays.
proof fn lemma_slope_fault_stays(
    rows: Seq<Seq<u8>>,
    ends: Seq<Seq<Option<usize>>>,
    y: int,
    x: int,
    row: int,
    col: int,
)
    requires
        sloped(rows, ends, y, x) is Err,
        0 <= y,
        0 <= x <= rows[0].len(),
        0 <= col <= rows[0].len(),
        y < row || (y == row && x <= col),
    ensures
        sloped(rows, ends, row, col) == sloped(rows, ends, y, x),
    decreases row - y, col,
{
    if y == row && x == col {
    } else if col > 0 {
        lemma_slope_fault_stays(rows, ends, y, x, row, col - 1);
    } else {
        lemma_slope_fault_stays(rows, ends, y, x, row - 1, rows[0].len() as int);
    }
}

/// Adds the edge that two ends give, if both are there.
fn join(adj: &mut [u128; 128], from: Option<usize>, to: Option<usize>) -> (joined: Result<
    (),
    MapError,
>)
    requires
        from matches Some(trail) ==> trail < MAX_SIZE,
        to matches Some(trail) ==> trail < MAX_SIZE,
    ensures
        match joined {
            Ok(()) => between(old(adj)@, from, to) == Ok::<Seq<u128>, MapError>(final(adj)@),
            Err(fault) => between(old(adj)@, from, to) == Err::<Seq<u128>, MapError>(fault),
        },
{
    match (from, to) {
        (Some(from), Some(to)) => {
            adj[from] = adj[from] | (1u128 << to);
            proof {
                assert(final(adj)@ =~= with_edge(old(adj)@, from, to));
            }
            Ok(())
        },
        _ => Err(MapError::SlopeUnconnected),
    }
}

/// Looks at the tiles of the map row by row, and finds the edges that the
/// slopes give between the trails that end at `ends`.
fn slopes(grid: &[&[u8]], ends: &Vec<Vec<Option<usize>>>, Ghost(survey): Ghost<Survey>) -> (found:
    Result<[u128; 128], MapError>)
    requires
        is_map(rows_of(grid@)),
        survey.sound(rows_of(grid@)),
        ends@.len() == survey.ends.len(),
        forall|y: int| 0 <= y < ends@.len() ==> (#[trigger] ends@[y])@ == survey.ends[y],
    ensures
        match found {
            Ok(adj) => sloped(rows_of(grid@), survey.ends, grid@.len() as int, 0) == Ok::<
                Seq<u128>,
                MapError,
            >(adj@),
            Err(fault) => sloped(rows_of(grid@), survey.ends, grid@.len() as int, 0) == Err::<
                Seq<u128>,
                MapError,
            >(fault),
        },
{
    let height = grid.len();
    let width = grid[0].len();
    let ghost rows = rows_of(grid@);
    let mut adj = [0u128; 128];
    proof {
        assert(adj@ =~= no_edges());
    }
    let mut y: usize = 0;
    while y < height
        invariant
            rows == rows_of(grid@),
            is_map(rows),
            survey.sound(rows),
            ends@.len() == survey.ends.len(),
            forall|row: int| 0 <= row < ends@.len() ==> (#[trigger] ends@[row])@ == survey.ends[row],
            height == grid@.len(),
            width == rows[0].len(),
            y <= height,
            sloped(rows, survey.ends, y as int, 0) == Ok::<Seq<u128>, MapError>(adj@),
        decreases height - y,
    {
        let mut x: usize = 0;
        while x < width
            invariant
                rows == rows_of(grid@),
                is_map(rows),
                survey.sound(rows),
                ends@.len() == survey.ends.len(),
                forall|row: int|
                    0 <= row < ends@.len() ==> (#[trigger] ends@[row])@ == survey.ends[row],
                height == grid@.len(),
                width == rows[0].len(),
                y < height,
                x <= width,
                sloped(rows, survey.ends, y as int, x as int) == Ok::<Seq<u128>, MapError>(adj@),
            decreases width - x,
        {
            proof {
                assert(rows[y as int].len() == width);
                assert(rows[y as int] == grid@[y as int]@);
                assert(ends@[y as int]@ == survey.ends[y as int]);
                assert(survey.ends[y as int].len() == width);
                if y > 0 {
                    assert(ends@[y - 1]@ == survey.ends[y - 1]);
                    assert(survey.ends[y - 1].len() == width);
                }
                if y + 1 < height {
                    assert(ends@[y + 1]@ == survey.ends[y + 1]);
                    assert(survey.ends[y + 1].len() == width);
                }
            }
            let mark = grid[y][x];
            let ghost before = adj@;
            let ghost next = with_slope(before, rows, survey.ends, y as int, x as int);
            let joined = if mark == '<' as u8 || mark == '>' as u8 {
                if x == 0 || x + 1 >= width {
                    Err(MapError::SlopeUnconnected)
                } else if mark == '>' as u8 {
                    join(&mut adj, ends[y][x - 1], ends[y][x + 1])
                } else {
                    join(&mut adj, ends[y][x + 1], ends[y][x - 1])
                }
            } else if mark == '^' as u8 || mark == 'v' as u8 {
                if y == 0 || y + 1 >= height {
                    Err(MapError::SlopeUnconnected)
                } else if mark == 'v' as u8 {
                    join(&mut adj, ends[y - 1][x], ends[y + 1][x])
                } else {
                    join(&mut adj, ends[y + 1][x], ends[y - 1][x])
                }
            } else {
                Ok(())
            };
            proof {
                assert(sloped(rows, survey.ends, y as int, x + 1) == next);
            }
            match joined {
                Ok(()) => {},
                Err(fault) => {
                    proof {
                        lemma_slope_fault_stays(rows, survey.ends, y as int, x + 1, height as int, 0);
                    }
                    return Err(fault);
                },
            }
            x += 1;
        }
        proof {
            assert(sloped(rows, survey.ends, y + 1, 0) == sloped(
                rows,
                survey.ends,
                y as int,
                width as int,
            ));
        }
        y += 1;
    }
    Ok(adj)
}

/// The first trail that ends at one of the first `upto` tiles of a row.
pub open spec fn first_end(row: Seq<Option<usize>>, upto: int) -> Option<usize>
    decreases upto,
{
    if upto <= 0 {
        None
    } else {
        match first_end(row, upto - 1) {
            Some(trail) => Some(trail),
            None => row[upto - 1],
        }
    }
}

/// Once a trail is found to end in a row, it stays the first.
proof fn lemma_first_end_stays(row: Seq<Option<usize>>, from: int, upto: int)
    requires
        0 <= from <= upto,
        first_end(row, from) is Some,
    ensures
        first_end(row, upto) == first_end(row, from),
    decreases upto - from,
{
    if from < upto {
        lemma_first_end_stays(row, from, upto - 1);
    }
}

/// The first trail that ends in a row.
fn first_in(row: &Vec<Option<usize>>) -> (found: Option<usize>)
    ensures
        found == first_end(row@, row@.len() as int),
{
    let mut x: usize = 0;
    while x < row.len()
        invariant
            x <= row@.len(),
            first_end(row@, x as int) is None,
        decreases row@.len() - x,
    {
        match row[x] {
            Some(trail) => {
                proof {
                    assert(first_end(row@, x + 1) == Some(trail));
                    lemma_first_end_stays(row@, x + 1, row@.len() as int);
                }
                return Some(trail);
            },
            None => {},
        }
        x += 1;
    }
    None
}

/// The trails of a map, as a graph: the number of tiles of each trail, the
/// edges that the slopes give, the first trail that ends in the first row
/// and the first that ends in the last row. Or what is wrong with the map.
pub open spec fn trails_of(rows: Seq<Seq<u8>>) -> Result<(Seq<u16>, Seq<u128>, usize, usize), MapError> {
    if rows.len() == 0 {
        Err(MapError::Empty)
    } else if !is_map(rows) {
        Err(MapError::Ragged)
    } else {
        match Survey::after(rows, rows.len() as int, 0) {
            Err(fault) => Err(fault),
            Ok(survey) => match sloped(rows, survey.ends, rows.len() as int, 0) {
                Err(fault) => Err(fault),
                Ok(adj) => match (
                    first_end(survey.ends[0], rows[0].len() as int),
                    first_end(survey.ends[rows.len() - 1], rows[0].len() as int),
                ) {
                    (None, _) => Err(MapError::NoStart),
                    (Some(_), None) => Err(MapError::NoTarget),
                    (Some(start), Some(target)) => Ok((survey.weights, adj, start, target)),
                },
            },
        }
    }
}

/// The graph holds the trails `trails`: the weights of its nodes are the
/// numbers of tiles of the trails, and a node that stands for no trail has
/// the weight 0.
pub open spec fn holds_trails(graph: Graph, trails: (Seq<u16>, Seq<u128>, usize, usize)) -> bool {
    &&& graph.num_nodes == trails.0.len()
    &&& graph.num_nodes <= MAX_SIZE
    &&& forall|node: int| 0 <= node < graph.num_nodes ==> #[trigger] graph.node_weights@[node] == trails.0[node]
    &&& forall|node: int|
        graph.num_nodes <= node < MAX_SIZE ==> #[trigger] graph.node_weights@[node] == 0
    &&& graph.adj@ == trails.1
    &&& graph.start == trails.2
    &&& graph.target == trails.3
}

/// An end that is found in a row is that of a trail that is known.
proof fn lemma_first_end_known(row: Seq<Option<usize>>, upto: int, count: int)
    requires
        0 <= upto <= row.len(),
        forall|x: int| 0 <= x < row.len() ==> (#[trigger] row[x] matches Some(trail) ==> trail < count),
    ensures
        first_end(row, upto) matches Some(trail) ==> trail < count,
    decreases upto,
{
    if upto > 0 {
        lemma_first_end_known(row, upto - 1, count);
        if first_end(row, upto - 1) is None {
            assert(row[upto - 1] matches Some(trail) ==> trail < count);
        }
    }
}

/// The lines of a text.
fn cut_lines<'a>(text: &'a [u8]) -> (grid: Vec<&'a [u8]>)
    ensures
        rows_of(grid@) == text_lines(text@),
{
    let mut grid: Vec<&'a [u8]> = Vec::new();
    let mut rest = text;
    let ghost lines = text_lines(text@);
    proof {
        assert(lines.skip(0) =~= lines);
    }
    while rest.len() > 0
        invariant
            lines == text_lines(text@),
            grid@.len() <= lines.len(),
            lines.skip(grid@.len() as int) == text_lines(rest@),
            forall|row: int| 0 <= row < grid@.len() ==> (#[trigger] grid@[row])@ == lines[row],
        decreases rest@.len(),
    {
        let (line, tail) = next_line(rest);
        let ghost done = grid@.len() as int;
        proof {
            assert(lines.skip(done)[0] == line@);
            assert(lines.skip(done + 1) =~= lines.skip(done).skip(1));
            assert(lines.skip(done).skip(1) =~= text_lines(tail@));
        }
        grid.push(line);
        rest = tail;
    }
    proof {
        assert(text_lines(rest@) =~= Seq::<Seq<u8>>::empty());
        assert(lines.skip(grid@.len() as int).len() == 0);
        assert(rows_of(grid@) =~= lines);
    }
    grid
}

/// Whether all rows are as long as the first.
fn even(grid: &Vec<&[u8]>) -> (even: bool)
    requires
        grid@.len() >= 1,
    ensures
        even == is_map(rows_of(grid@)),
{
    let width = grid[0].len();
    let mut y: usize = 0;
    while y < grid.len()
        invariant
            y <= grid@.len(),
            grid@.len() >= 1,
            width == grid@[0]@.len(),
            forall|row: int| 0 <= row < y ==> (#[trigger] rows_of(grid@)[row]).len() == width,
        decreases grid@.len() - y,
    {
        if grid[y].len() != width {
            proof {
                assert(rows_of(grid@)[y as int].len() != rows_of(grid@)[0].len());
            }
            return false;
        }
        y += 1;
    }
    true
}

impl Graph {
    /// Reads a map of trails, one line for each row of tiles: `.` is a tile
    /// of a trail, `<`, `>`, `^` and `v` are slopes, and every other
    /// character is forest. Returns the graph of the trails.
    ///
    /// A trail is a run of tiles `.` from one end to the other. Its ends
    /// are the tiles with at most one tile of a trail next to them, and it
    /// goes on from a tile while one tile of a trail lies next to that
    /// tile, not counting the one before. Each trail is a node of the
    /// graph, numbered in the order in which an end of it is met row by
    /// row, with the number of its tiles as its weight. Each slope is an
    /// edge between the trails that end on its two sides, in the direction
    /// in which it points. The graph starts at the first trail that ends in
    /// the first row and leads to the first that ends in the last row.
    pub fn from_str(s: &str) -> (read: Result<Graph, MapError>)
        ensures
            match read {
                Ok(graph) => trails_of(text_lines(s.spec_bytes())) matches Ok(trails)
                    && holds_trails(graph, trails) && graph.start < graph.num_nodes && graph.target
                    < graph.num_nodes,
                Err(fault) => trails_of(text_lines(s.spec_bytes())) == Err::<
                    (Seq<u16>, Seq<u128>, usize, usize),
                    MapError,
                >(fault),
            },
    {
        let grid = cut_lines(s.as_bytes());
        let height = grid.len();
        if height == 0 {
            return Err(MapError::Empty);
        }
        if !even(&grid) {
            return Err(MapError::Ragged);
        }
        let ghost rows = rows_of(grid@);
        let (ends, node_weights, num_nodes) = match survey(grid.as_slice()) {
            Ok(found) => found,
            Err(fault) => {
                return Err(fault);
            },
        };
        let ghost known = Survey::after(rows, height as int, 0).unwrap();
        let adj = match slopes(grid.as_slice(), &ends, Ghost(known)) {
            Ok(adj) => adj,
            Err(fault) => {
                return Err(fault);
            },
        };
        proof {
            assert(ends@[0]@ == known.ends[0]);
            assert(ends@[height - 1]@ == known.ends[height - 1]);
            lemma_first_end_known(known.ends[0], rows[0].len() as int, known.count());
            lemma_first_end_known(known.ends[height - 1], rows[0].len() as int, known.count());
        }
        let start = match first_in(&ends[0]) {
            Some(start) => start,
            None => {
                return Err(MapError::NoStart);
            },
        };
        let target = match first_in(&ends[height - 1]) {
            Some(target) => target,
            None => {
                return Err(MapError::NoTarget);
            },
        };
        Ok(Graph { num_nodes, adj, node_weights, start, target })
    }
}

} // verus!
