use vstd::prelude::*;
use crate::pipes::Tile;

verus! {

/// Why a sketch of pipes shows no field.
#[derive(Debug, Clone, Copy, PartialEq, Eq)]
pub enum SketchError {
    /// A second start is drawn.
    MultipleStarts,
    /// The character is none of `|-LJ7F.S`.
    InvalidTile(u8),
    /// No start is drawn.
    NoStart,
    /// The pipes of more or fewer than two tiles next to the start lead to
    /// it.
    StartNeighbors,
}

/// The character that marks the start.
pub open spec fn start_mark() -> u8 {
    'S' as u8
}

/// The row above row `y`, the column left of column `y`. Before the first
/// lies one that no sketch has.
pub open spec fn back(y: int) -> usize {
    if y == 0 {
        usize::MAX
    } else {
        (y - 1) as usize
    }
}

/// The character is one that a sketch is drawn with.
pub open spec fn known(mark: u8) -> bool {
    ||| mark == '|' as u8
    ||| mark == '-' as u8
    ||| mark == 'L' as u8
    ||| mark == 'J' as u8
    ||| mark == '7' as u8
    ||| mark == 'F' as u8
    ||| mark == '.' as u8
    ||| mark == 'S' as u8
}

/// What the character `mark` in row `y` and column `x` of a sketch shows: a
/// pipe and the two tiles that it leads to, or no pipe.
pub open spec fn drawn(mark: u8, y: int, x: int) -> Tile {
    if mark == '|' as u8 {
        Some([(back(y), x as usize), ((y + 1) as usize, x as usize)])
    } else if mark == '-' as u8 {
        Some([(y as usize, back(x)), (y as usize, (x + 1) as usize)])
    } else if mark == 'L' as u8 {
        Some([(back(y), x as usize), (y as usize, (x + 1) as usize)])
    } else if mark == 'J' as u8 {
        Some([(back(y), x as usize), (y as usize, back(x))])
    } else if mark == '7' as u8 {
        Some([((y + 1) as usize, x as usize), (y as usize, back(x))])
    } else if mark == 'F' as u8 {
        Some([((y + 1) as usize, x as usize), (y as usize, (x + 1) as usize)])
    } else {
        None
    }
}

/// The sketch has a character in row `y` and column `x`.
pub open spec fn in_sketch(lines: Seq<Vec<u8>>, y: int, x: int) -> bool {
    0 <= y < lines.len() && 0 <= x < lines[y]@.len()
}

/// Reading row by row, the place in row `y` and column `x` comes before the
/// one in row `row` and column `col`.
pub open spec fn earlier(y: int, x: int, row: int, col: int) -> bool {
    y < row || (y == row && x < col)
}

/// A start is drawn before row `row` and column `col`.
pub open spec fn start_before(lines: Seq<Vec<u8>>, row: int, col: int) -> bool {
    exists|y: int, x: int|
        in_sketch(lines, y, x) && earlier(y, x, row, col) && #[trigger] lines[y]@[x]
            == start_mark()
}

/// The character in row `y` and column `x` cannot stand there: it is not
/// known, or it is a second start.
pub open spec fn faulty(lines: Seq<Vec<u8>>, y: int, x: int) -> bool {
    &&& in_sketch(lines, y, x)
    &&& (!known(lines[y]@[x]) || (lines[y]@[x] == start_mark() && start_before(lines, y, x)))
}

/// No character before row `row` and column `col` is faulty.
pub open spec fn faultless_before(lines: Seq<Vec<u8>>, row: int, col: int) -> bool {
    forall|y: int, x: int| earlier(y, x, row, col) ==> !#[trigger] faulty(lines, y, x)
}

/// The pipe drawn in row `from.0` and column `from.1` leads to `to`.
pub open spec fn leads_to(lines: Seq<Vec<u8>>, from: (usize, usize), to: (usize, usize)) -> bool {
    &&& in_sketch(lines, from.0 as int, from.1 as int)
    &&& drawn(lines[from.0 as int]@[from.1 as int], from.0 as int, from.1 as int) matches Some(ends)
        && (ends[0] == to || ends[1] == to)
}

/// The four places around `start`: above, below, left and right.
pub open spec fn around(start: (usize, usize)) -> Seq<(usize, usize)> {
    seq![
        (back(start.0 as int), start.1),
        ((start.0 + 1) as usize, start.1),
        (start.0, back(start.1 as int)),
        (start.0, (start.1 + 1) as usize),
    ]
}

/// Those of the first `upto` places around `start` whose pipe leads to
/// `start`, in their order.
pub open spec fn ends_of_start(lines: Seq<Vec<u8>>, start: (usize, usize), upto: int) -> Seq<
    (usize, usize),
>
    decreases upto,
{
    if upto <= 0 {
        Seq::empty()
    } else if leads_to(lines, around(start)[upto - 1], start) {
        ends_of_start(lines, start, upto - 1).push(around(start)[upto - 1])
    } else {
        ends_of_start(lines, start, upto - 1)
    }
}

/// `graph` holds what the sketch shows, but for the start, which bears the
/// pipe that leads to `ends`, or no pipe if `ends` holds nothing.
pub open spec fn shows(
    graph: Seq<Vec<Tile>>,
    lines: Seq<Vec<u8>>,
    start: (usize, usize),
    ends: Seq<(usize, usize)>,
) -> bool {
    &&& graph.len() == lines.len()
    &&& forall|y: int| 0 <= y < lines.len() ==> (#[trigger] graph[y])@.len() == lines[y]@.len()
    &&& forall|y: int, x: int|
        in_sketch(lines, y, x) && (y, x) != (start.0 as int, start.1 as int)
            ==> #[trigger] graph[y]@[x] == drawn(lines[y]@[x], y, x)
    &&& in_sketch(lines, start.0 as int, start.1 as int) ==> match graph[start.0 as int]@[start.1 as int] {
        Some(pipe) => pipe@ == ends,
        None => ends.len() == 0,
    }
}

/// Reads the character in row `y` and column `x`.
fn draw(mark: u8, y: usize, x: usize) -> (tile: Option<Tile>)
    requires
        y < usize::MAX,
        x < usize::MAX,
    ensures
        tile is Some <==> known(mark),
        tile is Some ==> tile == Some(drawn(mark, y as int, x as int)),
{
    let up = if y == 0 {
        usize::MAX
    } else {
        y - 1
    };
    let left = if x == 0 {
        usize::MAX
    } else {
        x - 1
    };
    if mark == '|' as u8 {
        Some(Some([(up, x), (y + 1, x)]))
    } else if mark == '-' as u8 {
        Some(Some([(y, left), (y, x + 1)]))
    } else if mark == 'L' as u8 {
        Some(Some([(up, x), (y, x + 1)]))
    } else if mark == 'J' as u8 {
        Some(Some([(up, x), (y, left)]))
    } else if mark == '7' as u8 {
        Some(Some([(y + 1, x), (y, left)]))
    } else if mark == 'F' as u8 {
        Some(Some([(y + 1, x), (y, x + 1)]))
    } else if mark == '.' as u8 || mark == 'S' as u8 {
        Some(None)
    } else {
        None
    }
}

/// Whether the pipe on the tile `from` leads to `to`.
fn joins(graph: &Vec<Vec<Tile>>, from: (usize, usize), to: (usize, usize)) -> (joined: bool)
    ensures
        joined <==> {
            &&& from.0 < graph@.len()
            &&& from.1 < graph@[from.0 as int]@.len()
            &&& graph@[from.0 as int]@[from.1 as int] matches Some(ends) && (ends[0] == to || ends[1]
                == to)
        },
{
    if from.0 < graph.len() && from.1 < graph[from.0].len() {
        match graph[from.0][from.1] {
            Some(ends) => (ends[0].0 == to.0 && ends[0].1 == to.1) || (ends[1].0 == to.0
                && ends[1].1 == to.1),
            None => false,
        }
    } else {
        false
    }
}

/// Reads a sketch of pipes, one line for each row of tiles: `|`, `-`, `L`,
/// `J`, `7` and `F` are pipes that lead up and down, left and right, up and
/// right, up and left, down and left, and down and right; `.` is a tile
/// without a pipe; `S` is the start. Returns for each tile the two tiles
/// that its pipe leads to, and the start.
///
/// The pipe of the start is not drawn: it leads to those two of the tiles
/// above, below, left and right of the start whose pipes lead to the start.
///
/// The sketch is read row by row. The first character that is not known,
/// or that is a second start, is a fault. So are a sketch without a start,
/// and a start to which more or fewer than two pipes lead.
pub fn parse_graph(lines: &[Vec<u8>]) -> (sketch: Result<
    (Vec<Vec<Tile>>, (usize, usize)),
    SketchError,
>)
    ensures
        match sketch {
            Ok((graph, start)) => {
                &&& faultless_before(lines@, lines@.len() as int, 0)
                &&& in_sketch(lines@, start.0 as int, start.1 as int)
                &&& lines@[start.0 as int]@[start.1 as int] == start_mark()
                &&& ends_of_start(lines@, start, 4).len() == 2
                &&& shows(graph@, lines@, start, ends_of_start(lines@, start, 4))
            },
            Err(SketchError::InvalidTile(mark)) => exists|y: int, x: int|
                faultless_before(lines@, y, x) && #[trigger] faulty(lines@, y, x) && lines@[y]@[x]
                    == mark && !known(mark),
            Err(SketchError::MultipleStarts) => exists|y: int, x: int|
                faultless_before(lines@, y, x) && #[trigger] faulty(lines@, y, x) && lines@[y]@[x]
                    == start_mark(),
            Err(SketchError::NoStart) => {
                &&& faultless_before(lines@, lines@.len() as int, 0)
                &&& !start_before(lines@, lines@.len() as int, 0)
            },
            Err(SketchError::StartNeighbors) => {
                &&& faultless_before(lines@, lines@.len() as int, 0)
                &&& exists|y: int, x: int|
                    in_sketch(lines@, y, x) && #[trigger] lines@[y]@[x] == start_mark()
                        && y <= usize::MAX && x <= usize::MAX && ends_of_start(
                        lines@,
                        (y as usize, x as usize),
                        4,
                    ).len() != 2
            },
        },
{
    let mut start: Option<(usize, usize)> = None;
    let mut graph: Vec<Vec<Tile>> = Vec::new();
    let height = lines.len();
    let mut y: usize = 0;
    while y < height
        invariant
            height == lines@.len(),
            y <= lines@.len(),
            faultless_before(lines@, y as int, 0),
            shows(graph@, lines@.take(y as int), (usize::MAX, 0), Seq::empty()),
            start is None <==> !start_before(lines@, y as int, 0),
            start matches Some(at) ==> in_sketch(lines@, at.0 as int, at.1 as int) && at.0 < y
                && lines@[at.0 as int]@[at.1 as int] == start_mark(),
        decreases lines@.len() - y,
    {
        let line = &lines[y];
        let mut row: Vec<Tile> = Vec::new();
        let mut x: usize = 0;
        while x < line.len()
            invariant
                y < height,
                height == lines@.len(),
                line@ == lines@[y as int]@,
                x <= line@.len(),
                row@.len() == x,
                forall|k: int| 0 <= k < x ==> #[trigger] row@[k] == drawn(line@[k], y as int, k),
                faultless_before(lines@, y as int, x as int),
                start is None <==> !start_before(lines@, y as int, x as int),
                start matches Some(at) ==> in_sketch(lines@, at.0 as int, at.1 as int) && earlier(
                    at.0 as int,
                    at.1 as int,
                    y as int,
                    x as int,
                ) && lines@[at.0 as int]@[at.1 as int] == start_mark(),
            decreases line@.len() - x,
        {
            let mark = line[x];
            let tile = match draw(mark, y, x) {
                Some(tile) => tile,
                None => {
                    proof {
                        assert(faulty(lines@, y as int, x as int));
                    }
                    return Err(SketchError::InvalidTile(mark));
                },
            };
            if mark == 'S' as u8 {
                if start.is_some() {
                    proof {
                        assert(faulty(lines@, y as int, x as int));
                    }
                    return Err(SketchError::MultipleStarts);
                }
                start = Some((y, x));
            }
            row.push(tile);
            proof {
                assert(!faulty(lines@, y as int, x as int));
                assert forall|fy: int, fx: int| earlier(fy, fx, y as int, x + 1) implies !#[trigger] faulty(
                    lines@,
                    fy,
                    fx,
                ) by {
                    if !(fy == y && fx == x) {
                        assert(earlier(fy, fx, y as int, x as int));
                    }
                }
                if start_before(lines@, y as int, x + 1) {
                    let (sy, sx) = choose|sy: int, sx: int|
                        in_sketch(lines@, sy, sx) && earlier(sy, sx, y as int, x + 1)
                            && #[trigger] lines@[sy]@[sx] == start_mark();
                    if !(sy == y && sx == x) {
                        assert(earlier(sy, sx, y as int, x as int));
                    }
                }
                if start_before(lines@, y as int, x as int) {
                    let (sy, sx) = choose|sy: int, sx: int|
                        in_sketch(lines@, sy, sx) && earlier(sy, sx, y as int, x as int)
                            && #[trigger] lines@[sy]@[sx] == start_mark();
                    assert(earlier(sy, sx, y as int, x + 1));
                }
                if mark == start_mark() {
                    assert(in_sketch(lines@, y as int, x as int) && earlier(
                        y as int,
                        x as int,
                        y as int,
                        x + 1,
                    ) && lines@[y as int]@[x as int] == start_mark());
                }
            }
            x += 1;
        }
        let ghost before = graph@;
        graph.push(row);
        proof {
            assert forall|fy: int, fx: int| earlier(fy, fx, y + 1, 0) implies !#[trigger] faulty(
                lines@,
                fy,
                fx,
            ) by {
                if in_sketch(lines@, fy, fx) {
                    if fy == y {
                        assert(earlier(fy, fx, y as int, x as int));
                    } else {
                        assert(earlier(fy, fx, y as int, 0));
                    }
                }
            }
            if start_before(lines@, y + 1, 0) {
                let (sy, sx) = choose|sy: int, sx: int|
                    in_sketch(lines@, sy, sx) && earlier(sy, sx, y + 1, 0)
                        && #[trigger] lines@[sy]@[sx] == start_mark();
                assert(earlier(sy, sx, y as int, x as int));
            }
            if start_before(lines@, y as int, x as int) {
                let (sy, sx) = choose|sy: int, sx: int|
                    in_sketch(lines@, sy, sx) && earlier(sy, sx, y as int, x as int)
                        && #[trigger] lines@[sy]@[sx] == start_mark();
                assert(earlier(sy, sx, y + 1, 0));
            }
            let read = lines@.take(y + 1);
            assert forall|ry: int| 0 <= ry < read.len() implies (#[trigger] graph@[ry])@.len()
                == read[ry]@.len() by {
                if ry < y {
                    assert(graph@[ry] == before[ry]);
                    assert(lines@.take(y as int)[ry] == lines@[ry]);
                }
            }
            assert forall|ry: int, rx: int|
                in_sketch(read, ry, rx) && (ry, rx) != (usize::MAX as int, 0int)
                    implies #[trigger] graph@[ry]@[rx] == drawn(read[ry]@[rx], ry, rx) by {
                if ry < y {
                    assert(graph@[ry] == before[ry]);
                    assert(lines@.take(y as int)[ry] == lines@[ry]);
                    assert(in_sketch(lines@.take(y as int), ry, rx));
                    assert(before[ry]@[rx] == drawn(lines@.take(y as int)[ry]@[rx], ry, rx));
                }
            }
        }
        y += 1;
    }
    proof {
        assert(lines@.take(y as int) =~= lines@);
    }
    let start = match start {
        Some(start) => start,
        None => {
            return Err(SketchError::NoStart);
        },
    };
    let width = lines[start.0].len();
    let up = if start.0 == 0 {
        usize::MAX
    } else {
        start.0 - 1
    };
    let left = if start.1 == 0 {
        usize::MAX
    } else {
        start.1 - 1
    };
    let places = [(up, start.1), (start.0 + 1, start.1), (start.0, left), (start.0, start.1 + 1)];
    let mut ends: Vec<(usize, usize)> = Vec::new();
    let mut at: usize = 0;
    while at < 4
        invariant
            height == lines@.len(),
            at <= 4,
            places@ == around(start),
            in_sketch(lines@, start.0 as int, start.1 as int),
            lines@[start.0 as int]@[start.1 as int] == start_mark(),
            shows(graph@, lines@, (usize::MAX, 0), Seq::empty()),
            ends@ == ends_of_start(lines@, start, at as int),
        decreases 4 - at,
    {
        let place = places[at];
        proof {
            if in_sketch(lines@, place.0 as int, place.1 as int) {
                assert(graph@[place.0 as int]@[place.1 as int] == drawn(
                    lines@[place.0 as int]@[place.1 as int],
                    place.0 as int,
                    place.1 as int,
                ));
            } else if place.0 < lines@.len() {
                assert(graph@[place.0 as int]@.len() == lines@[place.0 as int]@.len());
            }
        }
        if joins(&graph, place, start) {
            ends.push(place);
        }
        at += 1;
    }
    if ends.len() != 2 {
        return Err(SketchError::StartNeighbors);
    }
    let ghost before = graph@;
    graph[start.0][start.1] = Some([ends[0], ends[1]]);
    proof {
        let pipe = graph@[start.0 as int]@[start.1 as int].unwrap();
        assert(pipe@ =~= ends@);
        assert forall|ry: int| 0 <= ry < lines@.len() implies (#[trigger] graph@[ry])@.len()
            == lines@[ry]@.len() by {
            assert(before[ry]@.len() == lines@[ry]@.len());
        }
        assert forall|ry: int, rx: int|
            in_sketch(lines@, ry, rx) && (ry, rx) != (start.0 as int, start.1 as int)
                implies #[trigger] graph@[ry]@[rx] == drawn(lines@[ry]@[rx], ry, rx) by {
            assert(before[ry]@[rx] == drawn(lines@[ry]@[rx], ry, rx));
        }
    }
    Ok((graph, start))
}

} // verus!
