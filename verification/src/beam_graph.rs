use vstd::prelude::*;
use arrayvec::ArrayVec;
use std::collections::VecDeque;
use crate::reach::{
    closed, lemma_closed_holds_reachable, lemma_reachable_self, lemma_reachable_step,
    lemma_unmarked_update, reachable, unmarked,
};

verus! {

/// A side of a cell together with the sense in which it is crossed: into the
/// cell or out of it.
#[derive(Debug, Clone, Copy, PartialEq, Eq, Structural)]
pub enum Edge {
    InWest,
    InEast,
    InNorth,
    InSouth,
    OutWest,
    OutEast,
    OutNorth,
    OutSouth,
}

/// Numbers the directed crossings of the cell borders of a grid.
///
/// A grid of `height` rows and `width` columns has `width + 1` vertical
/// borders in each row and `height + 1` horizontal borders in each column.
/// Every border can be crossed in two senses, and each crossing gets a
/// number of its own: first the eastward crossings, then the westward, the
/// northward and the southward ones, each group row by row.
#[derive(Debug, Clone, Copy)]
pub struct GraphIndexing {
    pub width: usize,
    pub height: usize,
}

impl GraphIndexing {
    /// The number of crossings.
    pub open spec fn spec_total(&self) -> int {
        2 * self.height * (self.width + 1) + 2 * self.width * (self.height + 1)
    }

    /// The number of crossings fits the machine word.
    pub open spec fn wf(&self) -> bool {
        self.spec_total() <= usize::MAX
    }

    /// The number of the eastward crossing of the vertical border `x` in row
    /// `y`.
    pub open spec fn spec_east(&self, x: int, y: int) -> int {
        y * (self.width + 1) + x
    }

    /// The number of the westward crossing of the vertical border `x` in row
    /// `y`.
    pub open spec fn spec_west(&self, x: int, y: int) -> int {
        self.height * (self.width + 1) + y * (self.width + 1) + x
    }

    /// The number of the northward crossing of the horizontal border `y` in
    /// column `x`.
    pub open spec fn spec_north(&self, x: int, y: int) -> int {
        2 * self.height * (self.width + 1) + y * self.width + x
    }

    /// The number of the southward crossing of the horizontal border `y` in
    /// column `x`.
    pub open spec fn spec_south(&self, x: int, y: int) -> int {
        2 * self.height * (self.width + 1) + (self.height + 1) * self.width + y * self.width + x
    }

    /// The number of the crossing `edge` of the cell in column `x` of row
    /// `y`. Leaving a cell towards the east crosses its east border
    /// eastward, entering it from the east crosses that border westward, and
    /// so on.
    pub open spec fn spec_crossing(&self, x: int, y: int, edge: Edge) -> int {
        match edge {
            Edge::InWest => self.spec_east(x, y),
            Edge::InEast => self.spec_west(x + 1, y),
            Edge::InNorth => self.spec_south(x, y),
            Edge::InSouth => self.spec_north(x, y + 1),
            Edge::OutWest => self.spec_west(x, y),
            Edge::OutEast => self.spec_east(x + 1, y),
            Edge::OutNorth => self.spec_north(x, y),
            Edge::OutSouth => self.spec_south(x, y + 1),
        }
    }

    /// The sizes of the four groups of crossings, and where each group ends.
    pub proof fn lemma_groups(&self, x: int, y: int)
        requires
            0 <= x <= self.width,
            0 <= y <= self.height,
        ensures
            0 <= y * (self.width + 1) <= self.height * (self.width + 1),
            0 <= y * self.width <= self.height * self.width,
            y < self.height ==> y * (self.width + 1) + self.width + 1 <= self.height * (self.width
                + 1),
            y < self.height ==> y * self.width + self.width <= self.height * self.width,
            (self.height + 1) * self.width == self.height * self.width + self.width,
            2 * self.height * (self.width + 1) == self.height * (self.width + 1) + self.height * (
            self.width + 1),
            2 * self.width * (self.height + 1) == 2 * (self.height * self.width) + 2 * self.width,
            self.height * (self.width + 1) == self.height * self.width + self.height,
    {
        let w = self.width as int;
        let h = self.height as int;
        assert(0 <= y * (w + 1) <= h * (w + 1)) by (nonlinear_arith)
            requires
                0 <= y <= h,
                0 <= w,
        ;
        assert(0 <= y * w <= h * w) by (nonlinear_arith)
            requires
                0 <= y <= h,
                0 <= w,
        ;
        assert(y < h ==> y * (w + 1) + w + 1 <= h * (w + 1)) by (nonlinear_arith)
            requires
                0 <= y <= h,
                0 <= w,
        ;
        assert(y < h ==> y * w + w <= h * w) by (nonlinear_arith)
            requires
                0 <= y <= h,
                0 <= w,
        ;
        assert((h + 1) * w == h * w + w) by (nonlinear_arith);
        assert(2 * h * (w + 1) == h * (w + 1) + h * (w + 1)) by (nonlinear_arith);
        assert(2 * w * (h + 1) == 2 * (h * w) + 2 * w) by (nonlinear_arith);
        assert(h * (w + 1) == h * w + h) by (nonlinear_arith);
    }

    /// The number of crossings.
    pub fn total(&self) -> (count: usize)
        requires
            self.wf(),
        ensures
            count == self.spec_total(),
    {
        proof {
            self.lemma_groups(0, 0);
            assert(2 * self.height <= 2 * self.height * (self.width + 1)) by (nonlinear_arith);
            assert(2 * self.width <= 2 * self.width * (self.height + 1)) by (nonlinear_arith);
        }
        2 * self.height * (self.width + 1) + 2 * self.width * (self.height + 1)
    }

    /// The number of the eastward crossing of the vertical border `x` in row
    /// `y`.
    pub fn east(&self, x: usize, y: usize) -> (number: usize)
        requires
            self.wf(),
            x <= self.width,
            y < self.height,
        ensures
            number == self.spec_east(x as int, y as int),
            number < self.height * (self.width + 1),
    {
        proof {
            self.lemma_groups(x as int, y as int);
        }
        y * (self.width + 1) + x
    }

    /// The number of the westward crossing of the vertical border `x` in row
    /// `y`.
    pub fn west(&self, x: usize, y: usize) -> (number: usize)
        requires
            self.wf(),
            x <= self.width,
            y < self.height,
        ensures
            number == self.spec_west(x as int, y as int),
            self.height * (self.width + 1) <= number < 2 * self.height * (self.width + 1),
    {
        proof {
            self.lemma_groups(x as int, y as int);
        }
        self.height * (self.width + 1) + y * (self.width + 1) + x
    }

    /// The number of the northward crossing of the horizontal border `y` in
    /// column `x`.
    pub fn north(&self, x: usize, y: usize) -> (number: usize)
        requires
            self.wf(),
            x < self.width,
            y <= self.height,
        ensures
            number == self.spec_north(x as int, y as int),
            2 * self.height * (self.width + 1) <= number < 2 * self.height * (self.width + 1) + (
            self.height + 1) * self.width,
    {
        proof {
            self.lemma_groups(x as int, y as int);
            assert(2 * self.height <= 2 * self.height * (self.width + 1)) by (nonlinear_arith);
        }
        2 * self.height * (self.width + 1) + y * self.width + x
    }

    /// The number of the southward crossing of the horizontal border `y` in
    /// column `x`.
    pub fn south(&self, x: usize, y: usize) -> (number: usize)
        requires
            self.wf(),
            x < self.width,
            y <= self.height,
        ensures
            number == self.spec_south(x as int, y as int),
            2 * self.height * (self.width + 1) + (self.height + 1) * self.width <= number
                < self.spec_total(),
    {
        proof {
            self.lemma_groups(x as int, y as int);
            assert(2 * self.height <= 2 * self.height * (self.width + 1)) by (nonlinear_arith);
        }
        2 * self.height * (self.width + 1) + (self.height + 1) * self.width + y * self.width + x
    }

    /// The number of the crossing `edge` of the cell in column `x` of row
    /// `y`.
    pub fn index(&self, x: usize, y: usize, edge: Edge) -> (number: usize)
        requires
            self.wf(),
            x < self.width,
            y < self.height,
        ensures
            number == self.spec_crossing(x as int, y as int, edge),
            number < self.spec_total(),
    {
        proof {
            self.lemma_groups(x as int, y as int);
        }
        match edge {
            Edge::InWest => self.east(x, y),
            Edge::InEast => self.west(x + 1, y),
            Edge::InNorth => self.south(x, y),
            Edge::InSouth => self.north(x, y + 1),
            Edge::OutWest => self.west(x, y),
            Edge::OutEast => self.east(x + 1, y),
            Edge::OutNorth => self.north(x, y),
            Edge::OutSouth => self.south(x, y + 1),
        }
    }
}

/// The vector of `arrayvec` that holds its items in place, up to a fixed
/// number of them.
#[verifier::external_type_specification]
#[verifier::external_body]
#[verifier::reject_recursive_types(T)]
pub struct ExArrayVec<T, const CAP: usize>(ArrayVec<T, CAP>);

/// What a vector of up to two crossings holds: the crossings, in the order
/// in which they were added.
pub uninterp spec fn links(slot: ArrayVec<usize, 2>) -> Seq<usize>;

/// A vector without a crossing, as `ArrayVec::new` makes it.
#[verifier::external_body]
fn no_links() -> (slot: ArrayVec<usize, 2>)
    ensures
        links(slot).len() == 0,
{
    ArrayVec::new()
}

/// Adds a crossing at the end, as `ArrayVec::push` does. The vector must
/// not be full.
#[verifier::external_body]
fn add_link(slot: &mut ArrayVec<usize, 2>, to: usize)
    requires
        links(*old(slot)).len() < 2,
    ensures
        links(*final(slot)) == links(*old(slot)).push(to),
{
    slot.push(to)
}

/// The crossings of a vector as a slice, as `ArrayVec::as_slice` gives
/// them.
#[verifier::external_body]
fn links_of(slot: &ArrayVec<usize, 2>) -> (held: &[usize])
    ensures
        held@ == links(*slot),
{
    slot.as_slice()
}

/// Empty space, which a beam goes straight through: `.`.
pub const EMPTY: u8 = 46;

/// A mirror from the bottom left to the top right: `/`.
pub const MIRROR_UP: u8 = 47;

/// A mirror from the top left to the bottom right: `\`.
pub const MIRROR_DOWN: u8 = 92;

/// A splitter that lies flat: `-`.
pub const SPLIT_FLAT: u8 = 45;

/// A splitter that stands upright: `|`.
pub const SPLIT_UPRIGHT: u8 = 124;

/// Whether a byte is one of the five tiles.
pub open spec fn is_tile(tile: u8) -> bool {
    tile == EMPTY || tile == MIRROR_UP || tile == MIRROR_DOWN || tile == SPLIT_FLAT || tile
        == SPLIT_UPRIGHT
}

/// Whether a crossing goes into a cell.
pub open spec fn is_entry(edge: Edge) -> bool {
    edge == Edge::InWest || edge == Edge::InEast || edge == Edge::InNorth || edge == Edge::InSouth
}

/// The sides by which a beam leaves a tile that it has entered by `from`,
/// in the order in which they are recorded. Empty space lets it go on, a
/// mirror turns it, and a splitter that it hits on its flat side sends it
/// both ways along the splitter.
pub open spec fn ways_out(tile: u8, from: Edge) -> Seq<Edge> {
    if !is_tile(tile) || !is_entry(from) {
        Seq::empty()
    } else if tile == EMPTY {
        match from {
            Edge::InWest => seq![Edge::OutEast],
            Edge::InEast => seq![Edge::OutWest],
            Edge::InNorth => seq![Edge::OutSouth],
            _ => seq![Edge::OutNorth],
        }
    } else if tile == MIRROR_UP {
        match from {
            Edge::InWest => seq![Edge::OutNorth],
            Edge::InEast => seq![Edge::OutSouth],
            Edge::InNorth => seq![Edge::OutWest],
            _ => seq![Edge::OutEast],
        }
    } else if tile == MIRROR_DOWN {
        match from {
            Edge::InWest => seq![Edge::OutSouth],
            Edge::InEast => seq![Edge::OutNorth],
            Edge::InNorth => seq![Edge::OutEast],
            _ => seq![Edge::OutWest],
        }
    } else if tile == SPLIT_FLAT {
        match from {
            Edge::InWest => seq![Edge::OutEast],
            Edge::InEast => seq![Edge::OutWest],
            _ => seq![Edge::OutWest, Edge::OutEast],
        }
    } else {
        match from {
            Edge::InNorth => seq![Edge::OutSouth],
            Edge::InSouth => seq![Edge::OutNorth],
            _ => seq![Edge::OutNorth, Edge::OutSouth],
        }
    }
}

/// The sides by which a beam leaves a tile that it has entered by `from`:
/// the first, and the second where there are two.
fn leave(tile: u8, from: Edge) -> (out: (Edge, Option<Edge>))
    requires
        is_tile(tile),
        is_entry(from),
    ensures
        ways_out(tile, from) == match out.1 {
            Some(second) => seq![out.0, second],
            None => seq![out.0],
        },
{
    if tile == EMPTY {
        match from {
            Edge::InWest => (Edge::OutEast, None),
            Edge::InEast => (Edge::OutWest, None),
            Edge::InNorth => (Edge::OutSouth, None),
            _ => (Edge::OutNorth, None),
        }
    } else if tile == MIRROR_UP {
        match from {
            Edge::InWest => (Edge::OutNorth, None),
            Edge::InEast => (Edge::OutSouth, None),
            Edge::InNorth => (Edge::OutWest, None),
            _ => (Edge::OutEast, None),
        }
    } else if tile == MIRROR_DOWN {
        match from {
            Edge::InWest => (Edge::OutSouth, None),
            Edge::InEast => (Edge::OutNorth, None),
            Edge::InNorth => (Edge::OutEast, None),
            _ => (Edge::OutWest, None),
        }
    } else if tile == SPLIT_FLAT {
        match from {
            Edge::InWest => (Edge::OutEast, None),
            Edge::InEast => (Edge::OutWest, None),
            _ => (Edge::OutWest, Some(Edge::OutEast)),
        }
    } else {
        match from {
            Edge::InNorth => (Edge::OutSouth, None),
            Edge::InSouth => (Edge::OutNorth, None),
            _ => (Edge::OutNorth, Some(Edge::OutSouth)),
        }
    }
}

/// The tiles of a grid as sequences of bytes.
pub open spec fn tiles(grid: Seq<Vec<u8>>) -> Seq<Seq<u8>> {
    Seq::new(grid.len(), |row: int| grid[row]@)
}

impl GraphIndexing {
    /// The grid has the rows and columns that the numbering is for.
    pub open spec fn fits(&self, grid: Seq<Seq<u8>>) -> bool {
        &&& grid.len() == self.height
        &&& forall|row: int| 0 <= row < grid.len() ==> (#[trigger] grid[row]).len() == self.width
    }

    /// The crossings that a beam goes on by after it has entered the cell in
    /// column `x` of row `y` by `from`.
    pub open spec fn onward(&self, grid: Seq<Seq<u8>>, x: int, y: int, from: Edge) -> Seq<usize> {
        Seq::new(
            ways_out(grid[y][x], from).len(),
            |i: int| self.spec_crossing(x, y, ways_out(grid[y][x], from)[i]) as usize,
        )
    }

    /// Whether `number` is the number of a crossing into a cell.
    pub open spec fn enters_a_cell(&self, number: int) -> bool {
        exists|x: int, y: int, from: Edge|
            0 <= x < self.width && 0 <= y < self.height && is_entry(from)
                && #[trigger] self.spec_crossing(x, y, from) == number
    }

    /// No two crossings into cells share a number.
    pub proof fn lemma_entries_differ(&self, x: int, y: int, from: Edge, x2: int, y2: int, from2: Edge)
        requires
            0 <= x < self.width,
            0 <= y < self.height,
            0 <= x2 < self.width,
            0 <= y2 < self.height,
            is_entry(from),
            is_entry(from2),
            self.spec_crossing(x, y, from) == self.spec_crossing(x2, y2, from2),
        ensures
            x == x2,
            y == y2,
            from == from2,
    {
        self.lemma_groups(x, y);
        self.lemma_groups(x + 1, y);
        self.lemma_groups(x, y + 1);
        self.lemma_groups(x2, y2);
        self.lemma_groups(x2 + 1, y2);
        self.lemma_groups(x2, y2 + 1);
        let w = self.width as int;
        assert(y * (w + 1) == y2 * (w + 1) + (x2 - x) ==> y == y2) by (nonlinear_arith)
            requires
                -w <= x2 - x <= w,
                0 <= y,
                0 <= y2,
                w >= 0,
        ;
        assert(y * w == y2 * w + (x2 - x) ==> y == y2) by (nonlinear_arith)
            requires
                -w < x2 - x < w,
                0 <= y,
                0 <= y2,
                w >= 0,
        ;
        assert((y + 1) * w == y * w + w) by (nonlinear_arith);
        assert((y2 + 1) * w == y2 * w + w) by (nonlinear_arith);
    }
}

/// A byte of a grid that is no tile.
#[derive(Debug, Clone, Copy, PartialEq, Eq, Structural)]
pub struct InvalidTile {
    pub tile: u8,
}

/// The place of a way into a cell among the four ways in.
spec fn entry_rank(from: Edge) -> int {
    match from {
        Edge::InWest => 0,
        Edge::InEast => 1,
        Edge::InNorth => 2,
        Edge::InSouth => 3,
        _ => 4,
    }
}

/// Whether the way by `from` into the cell in column `x` of row `y` comes
/// before the way of place `rank` into the cell in column `col` of row
/// `row`, going through the grid row by row.
spec fn before(x: int, y: int, from: Edge, row: int, col: int, rank: int) -> bool {
    is_entry(from) && (y < row || (y == row && (x < col || (x == col && entry_rank(from) < rank))))
}

/// What holds while the graph is built: the crossings into the cells that
/// have been gone through lead on as the tiles say, and no other crossing
/// leads anywhere yet.
spec fn built_up_to(
    adj: Seq<ArrayVec<usize, 2>>,
    indexing: GraphIndexing,
    grid: Seq<Seq<u8>>,
    row: int,
    col: int,
    rank: int,
) -> bool {
    &&& adj.len() == indexing.spec_total()
    &&& forall|x: int, y: int, from: Edge|
        0 <= x < indexing.width && 0 <= y < indexing.height && before(x, y, from, row, col, rank)
            ==> links(adj[#[trigger] indexing.spec_crossing(x, y, from)]) == indexing.onward(
            grid,
            x,
            y,
            from,
        )
    &&& forall|number: int|
        0 <= number < adj.len() && (forall|x: int, y: int, from: Edge|
            0 <= x < indexing.width && 0 <= y < indexing.height && before(
                x,
                y,
                from,
                row,
                col,
                rank,
            ) ==> #[trigger] indexing.spec_crossing(x, y, from) != number) ==> (#[trigger] links(
            adj[number],
        )).len() == 0
}

/// One more way into a cell has been dealt with.
proof fn lemma_built_further(
    old_adj: Seq<ArrayVec<usize, 2>>,
    new_adj: Seq<ArrayVec<usize, 2>>,
    indexing: GraphIndexing,
    grid: Seq<Seq<u8>>,
    row: int,
    col: int,
    from: Edge,
)
    requires
        indexing.wf(),
        0 <= col < indexing.width,
        0 <= row < indexing.height,
        is_entry(from),
        built_up_to(old_adj, indexing, grid, row, col, entry_rank(from)),
        new_adj.len() == old_adj.len(),
        links(new_adj[indexing.spec_crossing(col, row, from)]) == indexing.onward(
            grid,
            col,
            row,
            from,
        ),
        forall|number: int|
            0 <= number < old_adj.len() && number != indexing.spec_crossing(col, row, from)
                ==> new_adj[number] == old_adj[number],
    ensures
        built_up_to(new_adj, indexing, grid, row, col, entry_rank(from) + 1),
{
    let here = indexing.spec_crossing(col, row, from);
    let rank = entry_rank(from);
    assert forall|x: int, y: int, other: Edge|
        0 <= x < indexing.width && 0 <= y < indexing.height && before(
            x,
            y,
            other,
            row,
            col,
            rank + 1,
        ) implies links(new_adj[#[trigger] indexing.spec_crossing(x, y, other)])
        == indexing.onward(grid, x, y, other) by {
        if before(x, y, other, row, col, rank) {
            if indexing.spec_crossing(x, y, other) == here {
                indexing.lemma_entries_differ(x, y, other, col, row, from);
            }
            indexing.lemma_groups(x, y);
            indexing.lemma_groups(x + 1, y);
            indexing.lemma_groups(x, y + 1);
        } else {
            assert(other == from);
        }
    }
    assert forall|number: int|
        0 <= number < new_adj.len() && (forall|x: int, y: int, other: Edge|
            0 <= x < indexing.width && 0 <= y < indexing.height && before(
                x,
                y,
                other,
                row,
                col,
                rank + 1,
            ) ==> #[trigger] indexing.spec_crossing(x, y, other) != number) implies (#[trigger] links(
        new_adj[number],
    )).len() == 0 by {
        assert(before(col, row, from, row, col, rank + 1));
        assert(indexing.spec_crossing(col, row, from) != number);
        assert(links(old_adj[number]).len() == 0);
    }
}

/// Records the crossings by which a beam goes on after it has entered the
/// cell in column `x` of row `y` by `from`.
fn connect(adj: &mut Vec<ArrayVec<usize, 2>>, indexing: GraphIndexing, x: usize, y: usize, tile: u8, from: Edge)
    requires
        indexing.wf(),
        x < indexing.width,
        y < indexing.height,
        is_tile(tile),
        is_entry(from),
        old(adj)@.len() == indexing.spec_total(),
        links(old(adj)@[indexing.spec_crossing(x as int, y as int, from)]).len() == 0,
    ensures
        final(adj)@.len() == old(adj)@.len(),
        links(final(adj)@[indexing.spec_crossing(x as int, y as int, from)]) == Seq::new(
            ways_out(tile, from).len(),
            |i: int| indexing.spec_crossing(x as int, y as int, ways_out(tile, from)[i]) as usize,
        ),
        forall|number: int|
            0 <= number < old(adj)@.len() && number != indexing.spec_crossing(
                x as int,
                y as int,
                from,
            ) ==> final(adj)@[number] == old(adj)@[number],
{
    let (first, second) = leave(tile, from);
    let here = indexing.index(x, y, from);
    let to = indexing.index(x, y, first);
    add_link(&mut adj[here], to);
    match second {
        Some(other) => {
            let to = indexing.index(x, y, other);
            add_link(&mut adj[here], to);
        },
        None => {},
    }
    proof {
        let expected = Seq::new(
            ways_out(tile, from).len(),
            |i: int| indexing.spec_crossing(x as int, y as int, ways_out(tile, from)[i]) as usize,
        );
        assert(links(adj@[here as int]) =~= expected);
    }
}

/// The graph of the crossings of a grid of tiles: for each crossing into a
/// cell the crossings by which a beam goes on from there, at most two, and
/// for every other crossing none. A byte that is no tile is an error; the
/// first such byte, going row by row, is reported.
pub fn build_graph(indexing: GraphIndexing, grid: &[Vec<u8>]) -> (built: Result<
    Vec<ArrayVec<usize, 2>>,
    InvalidTile,
>)
    requires
        indexing.wf(),
        indexing.fits(tiles(grid@)),
    ensures
        match built {
            Ok(adj) => {
                &&& forall|x: int, y: int|
                    0 <= x < indexing.width && 0 <= y < indexing.height ==> is_tile(
                        #[trigger] tiles(grid@)[y][x],
                    )
                &&& adj@.len() == indexing.spec_total()
                &&& forall|x: int, y: int, from: Edge|
                    0 <= x < indexing.width && 0 <= y < indexing.height && is_entry(from) ==> links(
                        adj@[#[trigger] indexing.spec_crossing(x, y, from)],
                    ) == indexing.onward(tiles(grid@), x, y, from)
                &&& forall|number: int|
                    0 <= number < adj@.len() && !indexing.enters_a_cell(number) ==> (#[trigger] links(
                        adj@[number],
                    )).len() == 0
            },
            Err(found) => exists|x: int, y: int|
                {
                    &&& 0 <= x < indexing.width && 0 <= y < indexing.height
                    &&& #[trigger] tiles(grid@)[y][x] == found.tile
                    &&& !is_tile(found.tile)
                    &&& forall|x2: int, y2: int|
                        0 <= x2 < indexing.width && 0 <= y2 < indexing.height && (y2 < y || (y2
                            == y && x2 < x)) ==> is_tile(#[trigger] tiles(grid@)[y2][x2])
                },
        },
{
    let ghost model = tiles(grid@);
    let total = indexing.total();
    let mut adj: Vec<ArrayVec<usize, 2>> = Vec::new();
    let mut number: usize = 0;
    while number < total
        invariant
            number <= total,
            adj@.len() == number,
            forall|n: int| 0 <= n < number ==> (#[trigger] links(adj@[n])).len() == 0,
        decreases total - number,
    {
        adj.push(no_links());
        number += 1;
    }
    let mut y: usize = 0;
    while y < indexing.height
        invariant
            indexing.wf(),
            indexing.fits(model),
            model == tiles(grid@),
            y <= indexing.height,
            built_up_to(adj@, indexing, model, y as int, 0, 0),
            forall|x2: int, y2: int|
                0 <= x2 < indexing.width && 0 <= y2 < y ==> is_tile(#[trigger] model[y2][x2]),
        decreases indexing.height - y,
    {
        let row = &grid[y];
        assert(row@ == model[y as int]);
        let mut x: usize = 0;
        while x < indexing.width
            invariant
                indexing.wf(),
                indexing.fits(model),
                model == tiles(grid@),
                y < indexing.height,
                x <= indexing.width,
                row@ == model[y as int],
                built_up_to(adj@, indexing, model, y as int, x as int, 0),
                forall|x2: int, y2: int|
                    0 <= x2 < indexing.width && 0 <= y2 < indexing.height && (y2 < y || (y2 == y
                        && x2 < x)) ==> is_tile(#[trigger] model[y2][x2]),
            decreases indexing.width - x,
        {
            let c = row[x];
            if !(c == EMPTY || c == MIRROR_UP || c == MIRROR_DOWN || c == SPLIT_FLAT || c
                == SPLIT_UPRIGHT) {
                assert(model[y as int][x as int] == c);
                return Err(InvalidTile { tile: c });
            }
            proof {
                assert(model[y as int][x as int] == c);
            }
            let ghost start = adj@;
            proof {
                lemma_slot_free(adj@, indexing, model, x as int, y as int, Edge::InWest);
            }
            connect(&mut adj, indexing, x, y, c, Edge::InWest);
            proof {
                lemma_built_further(start, adj@, indexing, model, y as int, x as int, Edge::InWest);
                lemma_slot_free(adj@, indexing, model, x as int, y as int, Edge::InEast);
            }
            let ghost start = adj@;
            connect(&mut adj, indexing, x, y, c, Edge::InEast);
            proof {
                lemma_built_further(start, adj@, indexing, model, y as int, x as int, Edge::InEast);
                lemma_slot_free(adj@, indexing, model, x as int, y as int, Edge::InNorth);
            }
            let ghost start = adj@;
            connect(&mut adj, indexing, x, y, c, Edge::InNorth);
            proof {
                lemma_built_further(
                    start,
                    adj@,
                    indexing,
                    model,
                    y as int,
                    x as int,
                    Edge::InNorth,
                );
                lemma_slot_free(adj@, indexing, model, x as int, y as int, Edge::InSouth);
            }
            let ghost start = adj@;
            connect(&mut adj, indexing, x, y, c, Edge::InSouth);
            proof {
                lemma_built_further(
                    start,
                    adj@,
                    indexing,
                    model,
                    y as int,
                    x as int,
                    Edge::InSouth,
                );
                lemma_built_next(adj@, indexing, model, y as int, x as int, 4, y as int, x + 1, 0);
            }
            x += 1;
        }
        proof {
            lemma_built_next(adj@, indexing, model, y as int, x as int, 0, y + 1, 0, 0);
        }
        y += 1;
    }
    proof {
        assert forall|x: int, y2: int, from: Edge|
            0 <= x < indexing.width && 0 <= y2 < indexing.height && is_entry(from) implies links(
            adj@[#[trigger] indexing.spec_crossing(x, y2, from)],
        ) == indexing.onward(model, x, y2, from) by {
            assert(before(x, y2, from, y as int, 0, 0));
        }
        assert forall|number: int|
            0 <= number < adj@.len() && !indexing.enters_a_cell(number) implies (#[trigger] links(
            adj@[number],
        )).len() == 0 by {
            assert forall|x: int, y2: int, from: Edge|
                0 <= x < indexing.width && 0 <= y2 < indexing.height && before(
                    x,
                    y2,
                    from,
                    y as int,
                    0,
                    0,
                ) implies #[trigger] indexing.spec_crossing(x, y2, from) != number by {}
        }
    }
    Ok(adj)
}

/// The crossing by the next way into a cell leads nowhere yet.
proof fn lemma_slot_free(
    adj: Seq<ArrayVec<usize, 2>>,
    indexing: GraphIndexing,
    grid: Seq<Seq<u8>>,
    col: int,
    row: int,
    from: Edge,
)
    requires
        indexing.wf(),
        0 <= col < indexing.width,
        0 <= row < indexing.height,
        is_entry(from),
        built_up_to(adj, indexing, grid, row, col, entry_rank(from)),
    ensures
        0 <= indexing.spec_crossing(col, row, from) < adj.len(),
        links(adj[indexing.spec_crossing(col, row, from)]).len() == 0,
{
    indexing.lemma_groups(col, row);
    indexing.lemma_groups(col + 1, row);
    indexing.lemma_groups(col, row + 1);
    let here = indexing.spec_crossing(col, row, from);
    assert forall|x: int, y: int, other: Edge|
        0 <= x < indexing.width && 0 <= y < indexing.height && before(
            x,
            y,
            other,
            row,
            col,
            entry_rank(from),
        ) implies #[trigger] indexing.spec_crossing(x, y, other) != here by {
        if indexing.spec_crossing(x, y, other) == here {
            indexing.lemma_entries_differ(x, y, other, col, row, from);
        }
    }
}

/// Two points in the way through the grid before which the same ways into
/// cells come.
proof fn lemma_built_next(
    adj: Seq<ArrayVec<usize, 2>>,
    indexing: GraphIndexing,
    grid: Seq<Seq<u8>>,
    row: int,
    col: int,
    rank: int,
    next_row: int,
    next_col: int,
    next_rank: int,
)
    requires
        built_up_to(adj, indexing, grid, row, col, rank),
        forall|x: int, y: int, from: Edge|
            0 <= x < indexing.width && 0 <= y < indexing.height ==> (before(
                x,
                y,
                from,
                row,
                col,
                rank,
            ) <==> before(x, y, from, next_row, next_col, next_rank)),
    ensures
        built_up_to(adj, indexing, grid, next_row, next_col, next_rank),
{
    assert forall|number: int|
        0 <= number < adj.len() && (forall|x: int, y: int, from: Edge|
            0 <= x < indexing.width && 0 <= y < indexing.height && before(
                x,
                y,
                from,
                next_row,
                next_col,
                next_rank,
            ) ==> #[trigger] indexing.spec_crossing(x, y, from) != number) implies (#[trigger] links(
        adj[number],
    )).len() == 0 by {
        assert forall|x: int, y: int, from: Edge|
            0 <= x < indexing.width && 0 <= y < indexing.height && before(
                x,
                y,
                from,
                row,
                col,
                rank,
            ) implies #[trigger] indexing.spec_crossing(x, y, from) != number by {
            assert(before(x, y, from, next_row, next_col, next_rank));
        }
    }
}

/// A beam that goes over the crossing `from` goes on over the crossing `to`.
pub open spec fn goes_on(adj: Seq<ArrayVec<usize, 2>>, from: int, to: int) -> bool {
    &&& 0 <= from < adj.len()
    &&& exists|i: int| 0 <= i < links(adj[from]).len() && #[trigger] links(adj[from])[i] == to
}

/// The ways on from crossing to crossing.
pub open spec fn beams(adj: Seq<ArrayVec<usize, 2>>) -> spec_fn(int, int) -> bool {
    |from: int, to: int| goes_on(adj, from, to)
}

/// Whether a beam that starts at the crossing `start` goes into the cell in
/// column `x` of row `y` from any side.
pub open spec fn is_lit(
    adj: Seq<ArrayVec<usize, 2>>,
    indexing: GraphIndexing,
    start: int,
    x: int,
    y: int,
) -> bool {
    ||| reachable(beams(adj), start, indexing.spec_crossing(x, y, Edge::InWest))
    ||| reachable(beams(adj), start, indexing.spec_crossing(x, y, Edge::InEast))
    ||| reachable(beams(adj), start, indexing.spec_crossing(x, y, Edge::InNorth))
    ||| reachable(beams(adj), start, indexing.spec_crossing(x, y, Edge::InSouth))
}

/// The number of cells among the first `upto` of row `y` that a beam from
/// `start` goes into.
pub open spec fn lit_in_row(
    adj: Seq<ArrayVec<usize, 2>>,
    indexing: GraphIndexing,
    start: int,
    y: int,
    upto: int,
) -> int
    decreases upto,
{
    if upto <= 0 {
        0
    } else {
        lit_in_row(adj, indexing, start, y, upto - 1) + if is_lit(
            adj,
            indexing,
            start,
            upto - 1,
            y,
        ) {
            1int
        } else {
            0int
        }
    }
}

/// The number of cells in the first `rows` rows that a beam from `start`
/// goes into.
pub open spec fn lit_cells(
    adj: Seq<ArrayVec<usize, 2>>,
    indexing: GraphIndexing,
    start: int,
    rows: int,
) -> int
    decreases rows,
{
    if rows <= 0 {
        0
    } else {
        lit_cells(adj, indexing, start, rows - 1) + lit_in_row(
            adj,
            indexing,
            start,
            rows - 1,
            indexing.width as int,
        )
    }
}

/// No more cells are lit than there are.
proof fn lemma_lit_at_most(
    adj: Seq<ArrayVec<usize, 2>>,
    indexing: GraphIndexing,
    start: int,
    rows: int,
    upto: int,
)
    requires
        0 <= rows,
        0 <= upto,
    ensures
        0 <= lit_in_row(adj, indexing, start, rows, upto) <= upto,
        0 <= lit_cells(adj, indexing, start, rows) <= rows * indexing.width,
    decreases rows, upto,
{
    if upto > 0 {
        lemma_lit_at_most(adj, indexing, start, rows, upto - 1);
    }
    if rows > 0 {
        lemma_lit_at_most(adj, indexing, start, rows - 1, indexing.width as int);
        assert(rows * indexing.width == (rows - 1) * indexing.width + indexing.width)
            by (nonlinear_arith);
    } else {
        assert(rows * indexing.width == 0) by (nonlinear_arith)
            requires
                rows == 0,
        ;
    }
}

/// For each crossing whether it bears the stamp of the run.
pub open spec fn stamped(seen: Seq<usize>, run_idx: usize) -> Seq<bool> {
    Seq::new(seen.len(), |number: int| seen[number] == run_idx)
}

/// What holds while the beam is followed: the crossings that bear the stamp
/// are crossings that the beam reaches, and the others are as they were.
spec fn stamps_are_true(
    adj: Seq<ArrayVec<usize, 2>>,
    seen: Seq<usize>,
    before: Seq<usize>,
    run_idx: usize,
    start: int,
) -> bool {
    &&& seen.len() == adj.len()
    &&& before.len() == adj.len()
    &&& 0 <= start < adj.len()
    &&& seen[start] == run_idx
    &&& forall|number: int|
        0 <= number < adj.len() ==> (#[trigger] seen[number] == run_idx ==> reachable(
            beams(adj),
            start,
            number,
        )) && (seen[number] != run_idx ==> seen[number] == before[number])
    &&& forall|from: int, i: int|
        0 <= from < adj.len() && 0 <= i < links(adj[from]).len() ==> (#[trigger] links(
            adj[from],
        )[i]) < adj.len()
}

/// Every crossing that bears the stamp is still waiting in the queue,
/// unless it is `in_hand`, or leads on to none but stamped crossings.
spec fn stamped_are_waiting(
    adj: Seq<ArrayVec<usize, 2>>,
    seen: Seq<usize>,
    run_idx: usize,
    queue: Seq<usize>,
    in_hand: int,
) -> bool {
    &&& forall|i: int|
        0 <= i < queue.len() ==> (#[trigger] queue[i]) < adj.len() && seen[queue[i] as int]
            == run_idx
    &&& forall|from: int, to: int|
        0 <= from < adj.len() && seen[from] == run_idx && from != in_hand && #[trigger] goes_on(
            adj,
            from,
            to,
        ) && !queue.contains(from as usize) ==> seen[to] == run_idx
}

/// Follows a beam from the crossing `v0` through the graph, breadth first,
/// and stamps every crossing that it reaches with `run_idx` in `seen`.
/// Returns the number of cells that the beam goes into.
///
/// No crossing may bear the stamp beforehand: each run has a stamp of its
/// own, so that `seen` need not be cleared between runs.
pub fn run_bfs(
    adj: &[ArrayVec<usize, 2>],
    indexing: GraphIndexing,
    v0: usize,
    queue: &mut VecDeque<usize>,
    seen: &mut [usize],
    run_idx: usize,
) -> (energized: usize)
    requires
        indexing.wf(),
        adj@.len() == indexing.spec_total(),
        old(seen)@.len() == adj@.len(),
        v0 < adj@.len(),
        old(queue)@.len() == 0,
        forall|number: int| 0 <= number < adj@.len() ==> old(seen)@[number] != run_idx,
        forall|from: int, i: int|
            0 <= from < adj@.len() && 0 <= i < links(adj@[from]).len() ==> (#[trigger] links(
                adj@[from],
            )[i]) < adj@.len(),
    ensures
        final(queue)@.len() == 0,
        final(seen)@.len() == adj@.len(),
        forall|number: int|
            0 <= number < adj@.len() ==> #[trigger] final(seen)@[number] == if reachable(
                beams(adj@),
                v0 as int,
                number,
            ) {
                run_idx
            } else {
                old(seen)@[number]
            },
        energized == lit_cells(adj@, indexing, v0 as int, indexing.height as int),
{
    let nodes = adj.len();
    seen[v0] = run_idx;
    queue.push_back(v0);
    proof {
        lemma_reachable_self(beams(adj@), v0 as int);
        assert(queue@ =~= seq![v0]);
        assert(queue@[0] == v0);
        assert forall|from: int, to: int|
            0 <= from < adj@.len() && seen@[from] == run_idx && from != -1int
                && #[trigger] goes_on(adj@, from, to) && !queue@.contains(
                from as usize,
            ) implies seen@[to] == run_idx by {
            assert(from == v0);
            assert(queue@.contains(v0));
        }
    }
    loop
        invariant
            nodes == adj@.len(),
            stamps_are_true(adj@, seen@, old(seen)@, run_idx, v0 as int),
            stamped_are_waiting(adj@, seen@, run_idx, queue@, -1),
        ensures
            queue@.len() == 0,
            nodes == adj@.len(),
            stamps_are_true(adj@, seen@, old(seen)@, run_idx, v0 as int),
            stamped_are_waiting(adj@, seen@, run_idx, queue@, -1),
        decreases 2 * unmarked(stamped(seen@, run_idx)) + queue@.len(),
    {
        let ghost waiting = queue@;
        let v = match queue.pop_front() {
            Some(v) => v,
            None => {
                break ;
            },
        };
        proof {
            assert(waiting[0] == v);
            assert forall|i: int| 0 <= i < queue@.len() implies (#[trigger] queue@[i]) < adj@.len()
                && seen@[queue@[i] as int] == run_idx by {
                assert(queue@[i] == waiting[i + 1]);
            }
            assert forall|from: int, to: int|
                0 <= from < adj@.len() && seen@[from] == run_idx && from != v
                    && #[trigger] goes_on(adj@, from, to) && !queue@.contains(
                    from as usize,
                ) implies seen@[to] == run_idx by {
                if waiting.contains(from as usize) {
                    let i = choose|i: int| 0 <= i < waiting.len() && waiting[i] == from as usize;
                    assert(queue@[i - 1] == waiting[i]);
                }
            }
        }
        let onward = links_of(&adj[v]);
        let ghost budget = 2 * unmarked(stamped(seen@, run_idx)) + queue@.len();
        let mut i: usize = 0;
        while i < onward.len()
            invariant
                nodes == adj@.len(),
                v < nodes,
                onward@ == links(adj@[v as int]),
                i <= onward@.len(),
                seen@[v as int] == run_idx,
                stamps_are_true(adj@, seen@, old(seen)@, run_idx, v0 as int),
                stamped_are_waiting(adj@, seen@, run_idx, queue@, v as int),
                forall|tried: int| 0 <= tried < i ==> seen@[(#[trigger] onward@[tried]) as int] == run_idx,
                2 * unmarked(stamped(seen@, run_idx)) + queue@.len() <= budget,
            decreases onward@.len() - i,
        {
            let v2 = onward[i];
            assert(links(adj@[v as int])[i as int] < adj@.len());
            if seen[v2] != run_idx {
                let ghost before = seen@;
                let ghost queued = queue@;
                seen[v2] = run_idx;
                queue.push_back(v2);
                proof {
                    assert(goes_on(adj@, v as int, v2 as int));
                    lemma_reachable_step(beams(adj@), v0 as int, v as int, v2 as int);
                    assert(stamped(seen@, run_idx) =~= stamped(before, run_idx).update(
                        v2 as int,
                        true,
                    ));
                    lemma_unmarked_update(stamped(before, run_idx), v2 as int);
                    assert forall|number: int| 0 <= number < adj@.len() implies (
                    #[trigger] seen@[number] == run_idx ==> reachable(
                        beams(adj@),
                        v0 as int,
                        number,
                    )) && (seen@[number] != run_idx ==> seen@[number] == old(seen)@[number]) by {
                        if number != v2 {
                            assert(seen@[number] == before[number]);
                        }
                    }
                    assert forall|k: int| 0 <= k < queue@.len() implies (#[trigger] queue@[k])
                        < adj@.len() && seen@[queue@[k] as int] == run_idx by {
                        if k < queued.len() {
                            assert(queue@[k] == queued[k]);
                            assert(before[queued[k] as int] == run_idx);
                        }
                    }
                    assert forall|from: int, to: int|
                        0 <= from < adj@.len() && seen@[from] == run_idx && from != v
                            && #[trigger] goes_on(adj@, from, to) && !queue@.contains(
                            from as usize,
                        ) implies seen@[to] == run_idx by {
                        assert(queue@[queued.len() as int] == v2);
                        assert(from != v2);
                        assert(before[from] == run_idx);
                        if queued.contains(from as usize) {
                            let k = choose|k: int|
                                0 <= k < queued.len() && queued[k] == from as usize;
                            assert(queue@[k] == queued[k]);
                        }
                        assert(before[to] == run_idx);
                    }
                    assert forall|tried: int| 0 <= tried < i + 1 implies seen@[(
                    #[trigger] onward@[tried]) as int] == run_idx by {
                        if tried < i {
                            assert(before[onward@[tried] as int] == run_idx);
                        }
                    }
                }
            }
            i += 1;
        }
        proof {
            assert forall|from: int, to: int|
                0 <= from < adj@.len() && seen@[from] == run_idx && from != -1int
                    && #[trigger] goes_on(adj@, from, to) && !queue@.contains(
                    from as usize,
                ) implies seen@[to] == run_idx by {
                if from == v {
                    let at = choose|at: int|
                        0 <= at < links(adj@[from]).len() && #[trigger] links(adj@[from])[at]
                            == to;
                    assert(onward@[at] == to);
                }
            }
        }
    }
    proof {
        let marked = Set::new(|number: int| 0 <= number < adj@.len() && seen@[number] == run_idx);
        assert forall|from: int, to: int| marked.contains(from) && #[trigger] beams(adj@)(
            from,
            to,
        ) implies marked.contains(to) by {
            assert(goes_on(adj@, from, to));
            assert(!queue@.contains(from as usize));
        }
        assert(closed(beams(adj@), marked));
        assert forall|number: int| 0 <= number < adj@.len() implies #[trigger] seen@[number]
            == if reachable(beams(adj@), v0 as int, number) {
            run_idx
        } else {
            old(seen)@[number]
        } by {
            if reachable(beams(adj@), v0 as int, number) {
                lemma_closed_holds_reachable(beams(adj@), marked, v0 as int, number);
            }
        }
    }
    let mut energized: usize = 0;
    let mut y: usize = 0;
    while y < indexing.height
        invariant
            indexing.wf(),
            adj@.len() == indexing.spec_total(),
            seen@.len() == adj@.len(),
            y <= indexing.height,
            forall|number: int|
                0 <= number < adj@.len() ==> (#[trigger] seen@[number] == run_idx <==> reachable(
                    beams(adj@),
                    v0 as int,
                    number,
                )),
            energized == lit_cells(adj@, indexing, v0 as int, y as int),
        decreases indexing.height - y,
    {
        let mut x: usize = 0;
        let ghost so_far = energized;
        while x < indexing.width
            invariant
                indexing.wf(),
                adj@.len() == indexing.spec_total(),
                seen@.len() == adj@.len(),
                y < indexing.height,
                x <= indexing.width,
                forall|number: int|
                    0 <= number < adj@.len() ==> (#[trigger] seen@[number] == run_idx
                        <==> reachable(beams(adj@), v0 as int, number)),
                so_far == lit_cells(adj@, indexing, v0 as int, y as int),
                energized == so_far + lit_in_row(adj@, indexing, v0 as int, y as int, x as int),
            decreases indexing.width - x,
        {
            proof {
                lemma_lit_at_most(adj@, indexing, v0 as int, y as int, x + 1);
                indexing.lemma_groups(x as int, y as int);
                assert(y * indexing.width + indexing.width <= indexing.spec_total())
                    by (nonlinear_arith)
                    requires
                        y < indexing.height,
                        indexing.spec_total() == 2 * indexing.height * (indexing.width + 1) + 2
                            * indexing.width * (indexing.height + 1),
                ;
            }
            let lit = seen[indexing.index(x, y, Edge::InWest)] == run_idx || seen[indexing.index(
                x,
                y,
                Edge::InEast,
            )] == run_idx || seen[indexing.index(x, y, Edge::InNorth)] == run_idx
                || seen[indexing.index(x, y, Edge::InSouth)] == run_idx;
            assert(lit == is_lit(adj@, indexing, v0 as int, x as int, y as int));
            if lit {
                energized += 1;
            }
            x += 1;
        }
        y += 1;
    }
    energized
}

} // verus!
