use vstd::prelude::*;
use std::collections::VecDeque;
use crate::pipes::{is_field, Tile};
use crate::reach::{
    closed, is_walk, lemma_closed_holds_reachable, lemma_reachable_self, lemma_reachable_step,
    lemma_unmarked_update, reachable, unmarked,
};

verus! {

/// The end of a pipe that lies on no side of its tile.
#[derive(Debug, Clone, Copy, PartialEq, Eq)]
pub struct InvalidNeighbor {
    pub tile: (usize, usize),
    pub neighbor: (usize, usize),
}

/// The sides of a tile.
#[derive(Debug, Clone, Copy, PartialEq, Eq, Structural)]
pub enum Side {
    Up,
    Down,
    Left,
    Right,
}

/// A field of `height` rows of `width` tiles, and which of its pipes belong
/// to the loop. Between the tiles lie the corners: `height + 1` rows of
/// `width + 1`.
pub struct Field {
    pub graph: Seq<Vec<Tile>>,
    pub on_loop: Seq<Vec<bool>>,
}

impl Field {
    /// The number of rows.
    pub open spec fn height(self) -> int {
        self.graph.len() as int
    }

    /// The number of columns.
    pub open spec fn width(self) -> int {
        self.graph[0]@.len() as int
    }

    /// The field has a row, all rows are of one length, and every tile is
    /// said to belong to the loop or not.
    pub open spec fn wf(self) -> bool {
        &&& is_field(self.graph)
        &&& self.on_loop.len() == self.graph.len()
        &&& forall|row: int|
            0 <= row < self.on_loop.len() ==> (#[trigger] self.on_loop[row])@.len()
                == self.graph[0]@.len()
    }

    /// The number of tiles.
    pub open spec fn tiles(self) -> int {
        self.height() * self.width()
    }

    /// The number of tiles and corners.
    pub open spec fn nodes(self) -> int {
        self.tiles() + (self.height() + 1) * (self.width() + 1)
    }

    /// The number of the tile in row `y` and column `x`.
    pub open spec fn tile(self, y: int, x: int) -> int {
        y * self.width() + x
    }

    /// The number of the corner in row `y` and column `x` of the corners.
    pub open spec fn corner(self, y: int, x: int) -> int {
        y * (self.width() + 1) + x + self.tiles()
    }

    /// A pipe of the loop lies on the tile.
    pub open spec fn piped(self, y: int, x: int) -> bool {
        self.graph[y]@[x] is Some && self.on_loop[y]@[x]
    }

    /// The two corners of the tile in row `y` and column `x` that lie on
    /// its side `side`.
    pub open spec fn corners_on(self, y: int, x: int, side: Side) -> (int, int) {
        match side {
            Side::Up => (self.corner(y, x), self.corner(y, x + 1)),
            Side::Down => (self.corner(y + 1, x), self.corner(y + 1, x + 1)),
            Side::Left => (self.corner(y, x), self.corner(y + 1, x)),
            Side::Right => (self.corner(y, x + 1), self.corner(y + 1, x + 1)),
        }
    }

    /// The pipe on the tile in row `y` and column `x` goes out by `side`,
    /// and so between `one` and `other`.
    pub open spec fn crosses(self, y: int, x: int, side: Side, one: int, other: int) -> bool {
        &&& 0 <= y < self.height()
        &&& 0 <= x < self.width()
        &&& self.piped(y, x)
        &&& exists|end: int|
            0 <= end < 2 && side_of(y, x, #[trigger] self.graph[y]@[x].unwrap()[end]) == Some(side)
        &&& (self.corners_on(y, x, side) == (one, other) || self.corners_on(y, x, side) == (
            other,
            one,
        ))
    }

    /// A pipe of the loop goes between the corners `one` and `other`.
    pub open spec fn blocked(self, one: int, other: int) -> bool {
        exists|y: int, x: int, side: Side| #[trigger] self.crosses(y, x, side, one, other)
    }
}

/// The tile next to the one in row `y` and column `x` on its side `side`.
/// Above the first row and left of the first column lies a tile that no
/// field has.
pub open spec fn next_to(y: int, x: int, side: Side) -> (usize, usize) {
    match side {
        Side::Up => (
            if y == 0 {
                usize::MAX
            } else {
                (y - 1) as usize
            },
            x as usize,
        ),
        Side::Down => ((y + 1) as usize, x as usize),
        Side::Left => (
            y as usize,
            if x == 0 {
                usize::MAX
            } else {
                (x - 1) as usize
            },
        ),
        Side::Right => (y as usize, (x + 1) as usize),
    }
}

/// The side of the tile in row `y` and column `x` on which `neighbor` lies
/// next to it, if it lies next to it.
pub open spec fn side_of(y: int, x: int, neighbor: (usize, usize)) -> Option<Side> {
    if neighbor == next_to(y, x, Side::Up) {
        Some(Side::Up)
    } else if neighbor == next_to(y, x, Side::Down) {
        Some(Side::Down)
    } else if neighbor == next_to(y, x, Side::Left) {
        Some(Side::Left)
    } else if neighbor == next_to(y, x, Side::Right) {
        Some(Side::Right)
    } else {
        None
    }
}

/// The side of the tile in row `y` and column `x` on which `neighbor` lies.
fn which_side(y: usize, x: usize, neighbor: (usize, usize)) -> (side: Option<Side>)
    requires
        y < usize::MAX,
        x < usize::MAX,
    ensures
        side == side_of(y as int, x as int, neighbor),
{
    let up = if y == 0 {
        usize::MAX
    } else {
        y - 1
    };
    let left = if x == 0 {
        usize::MAX
    } else {
        x - 1
    };
    if neighbor.0 == up && neighbor.1 == x {
        Some(Side::Up)
    } else if neighbor.0 == y + 1 && neighbor.1 == x {
        Some(Side::Down)
    } else if neighbor.0 == y && neighbor.1 == left {
        Some(Side::Left)
    } else if neighbor.0 == y && neighbor.1 == x + 1 {
        Some(Side::Right)
    } else {
        None
    }
}

impl Field {
    /// The four corners of the tile in row `y` and column `x`: top left, top
    /// right, bottom left and bottom right.
    pub open spec fn four(self, y: int, x: int) -> Seq<usize> {
        seq![
            self.corner(y, x) as usize,
            self.corner(y, x + 1) as usize,
            self.corner(y + 1, x) as usize,
            self.corner(y + 1, x + 1) as usize,
        ]
    }

    /// Whether the tile in row `y` and column `x` comes before the one in
    /// row `row` and column `col`, going row by row.
    pub open spec fn before(y: int, x: int, row: int, col: int) -> bool {
        y < row || (y == row && x < col)
    }

    /// Every tile and every corner has a number of its own below the number
    /// of tiles and corners, the tiles the lower ones.
    pub proof fn lemma_numbers(self, y: int, x: int, y2: int, x2: int)
        requires
            0 <= y <= self.height(),
            0 <= x <= self.width(),
            0 <= y2 <= self.height(),
            0 <= x2 <= self.width(),
        ensures
            0 <= self.tiles(),
            self.tiles() <= self.corner(y, x) < self.nodes(),
            y < self.height() && x < self.width() ==> 0 <= self.tile(y, x) < self.tiles(),
            self.corner(y, x) == self.corner(y2, x2) ==> y == y2 && x == x2,
            y < self.height() && x < self.width() && y2 < self.height() && x2 < self.width()
                && self.tile(y, x) == self.tile(y2, x2) ==> y == y2 && x == x2,
    {
        let h = self.height();
        let w = self.width();
        assert(0 <= h * w) by (nonlinear_arith)
            requires
                0 <= h,
                0 <= w,
        ;
        assert(0 <= y * (w + 1) + x < (h + 1) * (w + 1)) by (nonlinear_arith)
            requires
                0 <= y <= h,
                0 <= x <= w,
        ;
        assert(y < h && x < w ==> 0 <= y * w + x < h * w) by (nonlinear_arith)
            requires
                0 <= y,
                0 <= x,
                0 <= w,
        ;
        assert(y * (w + 1) + x == y2 * (w + 1) + x2 ==> y == y2) by (nonlinear_arith)
            requires
                0 <= y,
                0 <= y2,
                0 <= x <= w,
                0 <= x2 <= w,
        ;
        assert(x < w && x2 < w && y * w + x == y2 * w + x2 ==> y == y2) by (nonlinear_arith)
            requires
                0 <= y,
                0 <= y2,
                0 <= x,
                0 <= x2,
        ;
    }

    /// What holds while the sides of the loop are noted: the tiles that have
    /// been gone through and bear no pipe of the loop hold their four
    /// corners, every corner holds the corners from which a pipe of a tile
    /// gone through parts it, and nothing else holds anything.
    pub open spec fn sides_noted(self, adj: Seq<Vec<usize>>, row: int, col: int) -> bool {
        &&& adj.len() == self.nodes()
        &&& forall|y: int, x: int|
            0 <= y < self.height() && 0 <= x < self.width() ==> (#[trigger] adj[self.tile(y, x)])@
                == if Self::before(y, x, row, col) && !self.piped(y, x) {
                self.four(y, x)
            } else {
                Seq::empty()
            }
        &&& forall|one: int, other: usize|
            self.tiles() <= one < self.nodes() ==> (#[trigger] adj[one]@.contains(other) <==> exists|
                y: int,
                x: int,
                side: Side,
            |
                Self::before(y, x, row, col) && #[trigger] self.crosses(
                    y,
                    x,
                    side,
                    one,
                    other as int,
                ))
    }
}

/// Whether a list holds a number.
fn holds(list: &Vec<usize>, number: usize) -> (held: bool)
    ensures
        held == list@.contains(number),
{
    let mut i: usize = 0;
    while i < list.len()
        invariant
            i <= list@.len(),
            forall|k: int| 0 <= k < i ==> list@[k] != number,
        decreases list@.len() - i,
    {
        if list[i] == number {
            return true;
        }
        i += 1;
    }
    false
}

/// Notes that a pipe parts the corners `one` and `other`.
fn part(adj: &mut Vec<Vec<usize>>, one: usize, other: usize)
    requires
        one < old(adj)@.len(),
        other < old(adj)@.len(),
    ensures
        final(adj)@.len() == old(adj)@.len(),
        forall|node: int|
            0 <= node < old(adj)@.len() && node != one && node != other ==> final(adj)@[node]
                == old(adj)@[node],
        forall|node: int, held: usize|
            0 <= node < old(adj)@.len() ==> (#[trigger] final(adj)@[node]@.contains(held) <==> old(
                adj,
            )@[node]@.contains(held) || (node == one && held == other) || (node == other && held
                == one)),
{
    let ghost before = adj@;
    adj[one].push(other);
    let ghost between = adj@;
    adj[other].push(one);
    proof {
        assert forall|node: int, held: usize| 0 <= node < before.len() implies (
        #[trigger] adj@[node]@.contains(held) <==> before[node]@.contains(held) || (node == one
            && held == other) || (node == other && held == one)) by {
            lemma_push_contains(before[one as int]@, other, held);
            lemma_push_contains(between[other as int]@, one, held);
        }
    }
}

/// A list with one more number holds what it held and that number.
proof fn lemma_push_contains(list: Seq<usize>, new: usize, held: usize)
    ensures
        list.push(new).contains(held) <==> list.contains(held) || held == new,
{
    if list.contains(held) {
        let i = choose|i: int| 0 <= i < list.len() && list[i] == held;
        assert(list.push(new)[i] == held);
    }
    if held == new {
        assert(list.push(new)[list.len() as int] == held);
    }
    if list.push(new).contains(held) {
        let i = choose|i: int| 0 <= i < list.push(new).len() && list.push(new)[i] == held;
        if i < list.len() {
            assert(list[i] == held);
        }
    }
}

impl Field {
    /// Both ends of a pipe of the loop on the tile in row `y` and column `x`
    /// lie next to the tile.
    pub open spec fn well_joined(self, y: int, x: int) -> bool {
        self.piped(y, x) ==> side_of(y, x, self.graph[y]@[x].unwrap()[0]) is Some && side_of(
            y,
            x,
            self.graph[y]@[x].unwrap()[1],
        ) is Some
    }

    /// `fault` names the first tile, going row by row, with a pipe of the
    /// loop that has an end not next to the tile, and the first such end.
    pub open spec fn first_fault(self, fault: InvalidNeighbor) -> bool {
        &&& fault.tile.0 < self.height()
        &&& fault.tile.1 < self.width()
        &&& !self.well_joined(fault.tile.0 as int, fault.tile.1 as int)
        &&& forall|y: int, x: int|
            0 <= y < self.height() && 0 <= x < self.width() && Self::before(
                y,
                x,
                fault.tile.0 as int,
                fault.tile.1 as int,
            ) ==> #[trigger] self.well_joined(y, x)
        &&& fault.neighbor == if side_of(
            fault.tile.0 as int,
            fault.tile.1 as int,
            self.graph[fault.tile.0 as int]@[fault.tile.1 as int].unwrap()[0],
        ) is None {
            self.graph[fault.tile.0 as int]@[fault.tile.1 as int].unwrap()[0]
        } else {
            self.graph[fault.tile.0 as int]@[fault.tile.1 as int].unwrap()[1]
        }
    }

    /// The number of tiles without a pipe of the loop among the first `upto`
    /// of row `y`.
    pub open spec fn bare_in_row(self, y: int, upto: int) -> int
        decreases upto,
    {
        if upto <= 0 {
            0
        } else {
            self.bare_in_row(y, upto - 1) + if self.piped(y, upto - 1) {
                0int
            } else {
                1int
            }
        }
    }

    /// The number of tiles without a pipe of the loop in the first `rows`
    /// rows.
    pub open spec fn bare_tiles(self, rows: int) -> int
        decreases rows,
    {
        if rows <= 0 {
            0
        } else {
            self.bare_tiles(rows - 1) + self.bare_in_row(rows - 1, self.width())
        }
    }

    /// No more tiles are bare than there are.
    pub proof fn lemma_bare_at_most(self, rows: int, upto: int)
        requires
            0 <= rows,
            0 <= upto,
        ensures
            0 <= self.bare_in_row(rows, upto) <= upto,
            0 <= self.bare_tiles(rows) <= rows * self.width(),
        decreases rows, upto,
    {
        if upto > 0 {
            self.lemma_bare_at_most(rows, upto - 1);
        }
        if rows > 0 {
            self.lemma_bare_at_most(rows - 1, self.width());
            assert(rows * self.width() == (rows - 1) * self.width() + self.width())
                by (nonlinear_arith);
        } else {
            assert(rows * self.width() == 0) by (nonlinear_arith)
                requires
                    rows == 0,
            ;
        }
    }
}

/// An empty list for every tile and every corner.
fn no_ways(nodes: usize) -> (adj: Vec<Vec<usize>>)
    ensures
        adj@.len() == nodes,
        forall|node: int| 0 <= node < nodes ==> (#[trigger] adj@[node])@.len() == 0,
{
    let mut adj: Vec<Vec<usize>> = Vec::new();
    let mut node: usize = 0;
    while node < nodes
        invariant
            node <= nodes,
            adj@.len() == node,
            forall|k: int| 0 <= k < node ==> (#[trigger] adj@[k])@.len() == 0,
        decreases nodes - node,
    {
        adj.push(Vec::new());
        node += 1;
    }
    adj
}

/// Notes for every tile without a pipe of the loop its four corners, and
/// for every corner the corners from which a pipe of the loop parts it.
/// Returns the lists and the number of tiles without a pipe of the loop.
fn note_sides(graph: &[Vec<Tile>], is_main_loop: &[Vec<bool>], Ghost(field): Ghost<Field>) -> (noted:
    Result<(Vec<Vec<usize>>, usize), InvalidNeighbor>)
    requires
        field.wf(),
        field.graph == graph@,
        field.on_loop == is_main_loop@,
        field.nodes() <= usize::MAX,
    ensures
        match noted {
            Ok((adj, bare)) => {
                &&& forall|y: int, x: int|
                    0 <= y < field.height() && 0 <= x < field.width() ==> #[trigger] field.well_joined(
                        y,
                        x,
                    )
                &&& field.sides_noted(adj@, field.height(), 0)
                &&& bare == field.bare_tiles(field.height())
            },
            Err(fault) => field.first_fault(fault),
        },
{
    let height = graph.len();
    let width = graph[0].len();
    proof {
        field.lemma_numbers(field.height(), field.width(), 0, 0);
        assert(field.tiles() >= 0);
        assert((field.height() + 1) * (field.width() + 1) >= field.width() + 1 && (field.height()
            + 1) * (field.width() + 1) >= field.height() + 1) by (nonlinear_arith)
            requires
                field.height() >= 0,
                field.width() >= 0,
        ;
    }
    let num_tiles = height * width;
    let num_corners = (height + 1) * (width + 1);
    let mut adj = no_ways(num_tiles + num_corners);
    let mut bare: usize = 0;
    proof {
        assert forall|one: int, other: usize| field.tiles() <= one < field.nodes() implies (
        #[trigger] adj@[one]@.contains(other) <==> exists|y: int, x: int, side: Side|
            Field::before(y, x, 0, 0) && #[trigger] field.crosses(y, x, side, one, other as int)) by {
            assert(adj@[one]@.len() == 0);
        }
        assert forall|y: int, x: int|
            0 <= y < field.height() && 0 <= x < field.width() implies (#[trigger] adj@[field.tile(
            y,
            x,
        )])@ == Seq::<usize>::empty() by {
            field.lemma_numbers(y, x, 0, 0);
            assert(adj@[field.tile(y, x)]@.len() == 0);
            assert(adj@[field.tile(y, x)]@ =~= Seq::<usize>::empty());
        }
    }
    let mut y: usize = 0;
    while y < height
        invariant
            field.wf(),
            field.graph == graph@,
            field.on_loop == is_main_loop@,
            field.nodes() <= usize::MAX,
            height == field.height(),
            width == field.width(),
            num_tiles == field.tiles(),
            y <= height,
            field.sides_noted(adj@, y as int, 0),
            bare == field.bare_tiles(y as int),
            forall|ty: int, tx: int|
                0 <= ty < y && 0 <= tx < width ==> #[trigger] field.well_joined(ty, tx),
        decreases height - y,
    {
        let mut x: usize = 0;
        let ghost bare_above = bare;
        while x < width
            invariant
                field.wf(),
                field.graph == graph@,
                field.on_loop == is_main_loop@,
                field.nodes() <= usize::MAX,
                height == field.height(),
                width == field.width(),
                num_tiles == field.tiles(),
                y < height,
                x <= width,
                field.sides_noted(adj@, y as int, x as int),
                bare_above == field.bare_tiles(y as int),
                bare == bare_above + field.bare_in_row(y as int, x as int),
                forall|ty: int, tx: int|
                    0 <= ty < height && 0 <= tx < width && Field::before(ty, tx, y as int, x as int)
                        ==> #[trigger] field.well_joined(ty, tx),
            decreases width - x,
        {
            proof {
                field.lemma_numbers(y as int, x as int, y + 1, x + 1);
                field.lemma_numbers(y as int, x + 1, y + 1, x as int);
                field.lemma_numbers(y + 1, x as int, 0, 0);
                field.lemma_numbers(y + 1, x + 1, 0, 0);
                assert(0 <= (y + 1) * (width + 1) <= field.corner(y + 1, x as int)) by (nonlinear_arith)
                    requires
                        field.corner(y + 1, x as int) == (y + 1) * (width + 1) + x + field.tiles(),
                        field.tiles() >= 0,
                        x >= 0,
                        y >= 0,
                        width >= 0,
                ;
                assert(0 <= y * (width + 1)) by (nonlinear_arith)
                    requires
                        y >= 0,
                        width >= 0,
                ;
                field.lemma_bare_at_most(y as int, x + 1);
                field.lemma_bare_at_most(y as int, 0);
                assert(y * width + width <= height * width) by (nonlinear_arith)
                    requires
                        y < height,
                        width >= 0,
                ;
                assert((y + 1) * (width + 1) == y * (width + 1) + width + 1) by (nonlinear_arith);
            }
            let tile = y * width + x;
            let top_left = y * (width + 1) + x + num_tiles;
            let top_right = top_left + 1;
            let bottom_left = (y + 1) * (width + 1) + x + num_tiles;
            let bottom_right = bottom_left + 1;
            let ghost before = adj@;
            let piped = match graph[y][x] {
                Some(ends) => if is_main_loop[y][x] {
                    Some(ends)
                } else {
                    None
                },
                None => None,
            };
            match piped {
                Some(ends) => {
                    let first = match which_side(y, x, ends[0]) {
                        Some(side) => side,
                        None => {
                            return Err(InvalidNeighbor { tile: (y, x), neighbor: ends[0] });
                        },
                    };
                    let second = match which_side(y, x, ends[1]) {
                        Some(side) => side,
                        None => {
                            return Err(InvalidNeighbor { tile: (y, x), neighbor: ends[1] });
                        },
                    };
                    let (one, other) = match first {
                        Side::Up => (top_left, top_right),
                        Side::Down => (bottom_left, bottom_right),
                        Side::Left => (top_left, bottom_left),
                        Side::Right => (top_right, bottom_right),
                    };
                    part(&mut adj, one, other);
                    let ghost between = adj@;
                    let (one2, other2) = match second {
                        Side::Up => (top_left, top_right),
                        Side::Down => (bottom_left, bottom_right),
                        Side::Left => (top_left, bottom_left),
                        Side::Right => (top_right, bottom_right),
                    };
                    part(&mut adj, one2, other2);
                    proof {
                        field.lemma_noted_further(
                            before,
                            between,
                            adj@,
                            y as int,
                            x as int,
                            first,
                            second,
                        );
                    }
                },
                None => {
                    bare += 1;
                    let mut corners: Vec<usize> = Vec::new();
                    corners.push(top_left);
                    corners.push(top_right);
                    corners.push(bottom_left);
                    corners.push(bottom_right);
                    adj[tile] = corners;
                    proof {
                        assert(adj@[tile as int]@ =~= field.four(y as int, x as int));
                        field.lemma_noted_bare(before, adj@, y as int, x as int);
                    }
                },
            }
            x += 1;
        }
        proof {
            field.lemma_noted_next_row(adj@, y as int);
        }
        y += 1;
    }
    Ok((adj, bare))
}

impl Field {
    /// After the sides of a pipe of the loop have been noted, its tile has
    /// been gone through.
    proof fn lemma_noted_further(
        self,
        before: Seq<Vec<usize>>,
        between: Seq<Vec<usize>>,
        after: Seq<Vec<usize>>,
        y: int,
        x: int,
        first: Side,
        second: Side,
    )
        requires
            self.wf(),
            0 <= y < self.height(),
            0 <= x < self.width(),
            self.piped(y, x),
            side_of(y, x, self.graph[y]@[x].unwrap()[0]) == Some(first),
            side_of(y, x, self.graph[y]@[x].unwrap()[1]) == Some(second),
            self.sides_noted(before, y, x),
            between.len() == before.len(),
            after.len() == before.len(),
            forall|node: int|
                0 <= node < before.len() && node != self.corners_on(y, x, first).0 && node
                    != self.corners_on(y, x, first).1 ==> between[node] == before[node],
            forall|node: int, held: usize|
                0 <= node < before.len() ==> (#[trigger] between[node]@.contains(held)
                    <==> before[node]@.contains(held) || (node == self.corners_on(y, x, first).0
                    && held == self.corners_on(y, x, first).1) || (node == self.corners_on(
                    y,
                    x,
                    first,
                ).1 && held == self.corners_on(y, x, first).0)),
            forall|node: int|
                0 <= node < before.len() && node != self.corners_on(y, x, second).0 && node
                    != self.corners_on(y, x, second).1 ==> after[node] == between[node],
            forall|node: int, held: usize|
                0 <= node < before.len() ==> (#[trigger] after[node]@.contains(held)
                    <==> between[node]@.contains(held) || (node == self.corners_on(y, x, second).0
                    && held == self.corners_on(y, x, second).1) || (node == self.corners_on(
                    y,
                    x,
                    second,
                ).1 && held == self.corners_on(y, x, second).0)),
        ensures
            self.sides_noted(after, y, x + 1),
    {
        self.lemma_numbers(y, x, y + 1, x + 1);
        self.lemma_numbers(y, x + 1, y + 1, x);
        assert forall|ty: int, tx: int|
            0 <= ty < self.height() && 0 <= tx < self.width() implies (#[trigger] after[self.tile(
            ty,
            tx,
        )])@ == if Self::before(ty, tx, y, x + 1) && !self.piped(ty, tx) {
            self.four(ty, tx)
        } else {
            Seq::empty()
        } by {
            self.lemma_numbers(ty, tx, 0, 0);
            assert(between[self.tile(ty, tx)] == before[self.tile(ty, tx)]);
            assert(after[self.tile(ty, tx)] == between[self.tile(ty, tx)]);
        }
        assert forall|one: int, other: usize| self.tiles() <= one < self.nodes() implies (
        #[trigger] after[one]@.contains(other) <==> exists|ty: int, tx: int, side: Side|
            Self::before(ty, tx, y, x + 1) && #[trigger] self.crosses(
                ty,
                tx,
                side,
                one,
                other as int,
            )) by {
            assert(between[one]@.contains(other) <==> before[one]@.contains(other) || (one
                == self.corners_on(y, x, first).0 && other == self.corners_on(y, x, first).1) || (
            one == self.corners_on(y, x, first).1 && other == self.corners_on(y, x, first).0));
            if after[one]@.contains(other) {
                if before[one]@.contains(other) {
                    let (ty, tx, side) = choose|ty: int, tx: int, side: Side|
                        Self::before(ty, tx, y, x) && #[trigger] self.crosses(
                            ty,
                            tx,
                            side,
                            one,
                            other as int,
                        );
                    assert(Self::before(ty, tx, y, x + 1) && self.crosses(
                        ty,
                        tx,
                        side,
                        one,
                        other as int,
                    ));
                } else if between[one]@.contains(other) {
                    assert(self.crosses(y, x, first, one, other as int));
                } else {
                    assert(self.crosses(y, x, second, one, other as int));
                }
            }
            if exists|ty: int, tx: int, side: Side|
                Self::before(ty, tx, y, x + 1) && #[trigger] self.crosses(
                    ty,
                    tx,
                    side,
                    one,
                    other as int,
                ) {
                let (ty, tx, side) = choose|ty: int, tx: int, side: Side|
                    Self::before(ty, tx, y, x + 1) && #[trigger] self.crosses(
                        ty,
                        tx,
                        side,
                        one,
                        other as int,
                    );
                if Self::before(ty, tx, y, x) {
                    assert(before[one]@.contains(other));
                } else {
                    assert(ty == y && tx == x);
                    assert(side == first || side == second);
                }
            }
        }
    }

    /// After the corners of a tile without a pipe of the loop have been
    /// noted, the tile has been gone through.
    proof fn lemma_noted_bare(self, before: Seq<Vec<usize>>, after: Seq<Vec<usize>>, y: int, x: int)
        requires
            self.wf(),
            0 <= y < self.height(),
            0 <= x < self.width(),
            !self.piped(y, x),
            self.sides_noted(before, y, x),
            after.len() == before.len(),
            after[self.tile(y, x)]@ == self.four(y, x),
            forall|node: int|
                0 <= node < before.len() && node != self.tile(y, x) ==> after[node] == before[node],
        ensures
            self.sides_noted(after, y, x + 1),
    {
        self.lemma_numbers(y, x, 0, 0);
        assert forall|ty: int, tx: int|
            0 <= ty < self.height() && 0 <= tx < self.width() implies (#[trigger] after[self.tile(
            ty,
            tx,
        )])@ == if Self::before(ty, tx, y, x + 1) && !self.piped(ty, tx) {
            self.four(ty, tx)
        } else {
            Seq::empty()
        } by {
            self.lemma_numbers(ty, tx, y, x);
            if ty != y || tx != x {
                assert(after[self.tile(ty, tx)] == before[self.tile(ty, tx)]);
            }
        }
        assert forall|one: int, other: usize| self.tiles() <= one < self.nodes() implies (
        #[trigger] after[one]@.contains(other) <==> exists|ty: int, tx: int, side: Side|
            Self::before(ty, tx, y, x + 1) && #[trigger] self.crosses(
                ty,
                tx,
                side,
                one,
                other as int,
            )) by {
            assert(after[one] == before[one]);
            if exists|ty: int, tx: int, side: Side|
                Self::before(ty, tx, y, x + 1) && #[trigger] self.crosses(
                    ty,
                    tx,
                    side,
                    one,
                    other as int,
                ) {
                let (ty, tx, side) = choose|ty: int, tx: int, side: Side|
                    Self::before(ty, tx, y, x + 1) && #[trigger] self.crosses(
                        ty,
                        tx,
                        side,
                        one,
                        other as int,
                    );
                assert(Self::before(ty, tx, y, x));
            }
            if before[one]@.contains(other) {
                let (ty, tx, side) = choose|ty: int, tx: int, side: Side|
                    Self::before(ty, tx, y, x) && #[trigger] self.crosses(
                        ty,
                        tx,
                        side,
                        one,
                        other as int,
                    );
                assert(Self::before(ty, tx, y, x + 1));
            }
        }
    }

    /// With the last tile of a row the row has been gone through.
    proof fn lemma_noted_next_row(self, adj: Seq<Vec<usize>>, y: int)
        requires
            self.wf(),
            0 <= y < self.height(),
            self.sides_noted(adj, y, self.width()),
        ensures
            self.sides_noted(adj, y + 1, 0),
    {
        assert forall|one: int, other: usize| self.tiles() <= one < self.nodes() implies (
        #[trigger] adj[one]@.contains(other) <==> exists|ty: int, tx: int, side: Side|
            Self::before(ty, tx, y + 1, 0) && #[trigger] self.crosses(
                ty,
                tx,
                side,
                one,
                other as int,
            )) by {
            if exists|ty: int, tx: int, side: Side|
                Self::before(ty, tx, y + 1, 0) && #[trigger] self.crosses(
                    ty,
                    tx,
                    side,
                    one,
                    other as int,
                ) {
                let (ty, tx, side) = choose|ty: int, tx: int, side: Side|
                    Self::before(ty, tx, y + 1, 0) && #[trigger] self.crosses(
                        ty,
                        tx,
                        side,
                        one,
                        other as int,
                    );
                assert(Self::before(ty, tx, y, self.width()));
            }
            if adj[one]@.contains(other) {
                let (ty, tx, side) = choose|ty: int, tx: int, side: Side|
                    Self::before(ty, tx, y, self.width()) && #[trigger] self.crosses(
                        ty,
                        tx,
                        side,
                        one,
                        other as int,
                    );
                assert(Self::before(ty, tx, y + 1, 0));
            }
        }
    }
}

impl Field {
    /// On its side `side` the corner in row `y` and column `x` has the
    /// corner `other` next to it, in one of the first `height` rows and
    /// `width` columns of the corners, and no pipe of the loop goes between
    /// the two.
    pub open spec fn leads(self, y: int, x: int, side: Side, other: int) -> bool {
        &&& next_to(y, x, side).0 < self.height()
        &&& next_to(y, x, side).1 < self.width()
        &&& other == self.corner(next_to(y, x, side).0 as int, next_to(y, x, side).1 as int)
        &&& !self.blocked(self.corner(y, x), other)
    }

    /// A way leads from the corner in row `y` and column `x` to the corner
    /// `other`.
    pub open spec fn open_way(self, y: int, x: int, other: int) -> bool {
        exists|side: Side| #[trigger] self.leads(y, x, side, other)
    }

    /// What holds while the ways between the corners are worked out: the
    /// corners that have been gone through hold the corners that a way
    /// leads to, the others still hold the corners from which a pipe parts
    /// them, and the tiles hold what they held.
    pub open spec fn ways_opened(self, adj: Seq<Vec<usize>>, row: int, col: int) -> bool {
        &&& adj.len() == self.nodes()
        &&& forall|y: int, x: int|
            0 <= y < self.height() && 0 <= x < self.width() ==> (#[trigger] adj[self.tile(y, x)])@
                == if !self.piped(y, x) {
                self.four(y, x)
            } else {
                Seq::empty()
            }
        &&& forall|y: int, x: int, other: usize|
            0 <= y <= self.height() && 0 <= x <= self.width() ==> (#[trigger] adj[self.corner(
                y,
                x,
            )]@.contains(other) <==> if Self::before(y, x, row, col) {
                self.open_way(y, x, other as int)
            } else {
                self.blocked(self.corner(y, x), other as int)
            })
    }

    /// Once the sides of the loop are noted, the ways can be worked out.
    proof fn lemma_sides_are_noted(self, adj: Seq<Vec<usize>>)
        requires
            self.wf(),
            self.sides_noted(adj, self.height(), 0),
        ensures
            self.ways_opened(adj, 0, 0),
    {
        assert forall|y: int, x: int, other: usize|
            0 <= y <= self.height() && 0 <= x <= self.width() implies (#[trigger] adj[self.corner(
            y,
            x,
        )]@.contains(other) <==> self.blocked(self.corner(y, x), other as int)) by {
            self.lemma_numbers(y, x, 0, 0);
            let one = self.corner(y, x);
            if self.blocked(one, other as int) {
                let (ty, tx, side) = choose|ty: int, tx: int, side: Side| #[trigger]
                    self.crosses(ty, tx, side, one, other as int);
                assert(Self::before(ty, tx, self.height(), 0));
            }
        }
    }
}

/// Adds to `ways` the corner next to the corner in row `y` and column `x`
/// on its side `side`, if a way leads there.
fn try_way(
    adj: &Vec<Vec<usize>>,
    ways: &mut Vec<usize>,
    y: usize,
    x: usize,
    next: (usize, usize),
    height: usize,
    width: usize,
    Ghost(field): Ghost<Field>,
    Ghost(side): Ghost<Side>,
)
    requires
        field.wf(),
        field.nodes() <= usize::MAX,
        height == field.height(),
        width == field.width(),
        y <= height,
        x <= width,
        adj@.len() == field.nodes(),
        next == next_to(y as int, x as int, side),
        forall|other: usize|
            adj@[field.corner(y as int, x as int)]@.contains(other) <==> field.blocked(
                field.corner(y as int, x as int),
                other as int,
            ),
    ensures
        forall|other: usize| #[trigger]
            final(ways)@.contains(other) <==> old(ways)@.contains(other) || field.leads(
                y as int,
                x as int,
                side,
                other as int,
            ),
{
    proof {
        field.lemma_numbers(y as int, x as int, 0, 0);
        field.lemma_numbers(field.height(), field.width(), 0, 0);
        assert((height + 1) * (width + 1) >= width + 1) by (nonlinear_arith)
            requires
                height >= 0,
                width >= 0,
        ;
        assert(0 <= y * (width + 1)) by (nonlinear_arith)
            requires
                y >= 0,
                width >= 0,
        ;
    }
    proof {
        assert(next.0 == next_to(y as int, x as int, side).0);
        assert(next.1 == next_to(y as int, x as int, side).1);
    }
    if next.0 < height && next.1 < width {
        proof {
            field.lemma_numbers(next.0 as int, next.1 as int, 0, 0);
            assert(0 <= next.0 * (width + 1)) by (nonlinear_arith)
                requires
                    next.0 >= 0,
                    width >= 0,
            ;
        }
        let corner = y * (width + 1) + x + height * width;
        let neighbor = next.0 * (width + 1) + next.1 + height * width;
        proof {
            assert(corner == field.corner(y as int, x as int));
            assert(neighbor == field.corner(next.0 as int, next.1 as int));
            assert(adj@[field.corner(y as int, x as int)]@.contains(neighbor) <==> field.blocked(
                field.corner(y as int, x as int),
                neighbor as int,
            ));
        }
        if !holds(&adj[corner], neighbor) {
            let ghost before = ways@;
            ways.push(neighbor);
            proof {
                assert(field.leads(y as int, x as int, side, neighbor as int));
                assert forall|other: usize| #[trigger]
                    ways@.contains(other) <==> before.contains(other) || field.leads(
                        y as int,
                        x as int,
                        side,
                        other as int,
                    ) by {
                    lemma_push_contains(before, neighbor, other);
                    if other != neighbor {
                        assert(!field.leads(y as int, x as int, side, other as int));
                    }
                }
            }
        } else {
            assert forall|other: usize| #[trigger]
                ways@.contains(other) <==> old(ways)@.contains(other) || field.leads(
                    y as int,
                    x as int,
                    side,
                    other as int,
                ) by {
                if other == neighbor {
                    assert(field.blocked(field.corner(y as int, x as int), other as int));
                }
                assert(!field.leads(y as int, x as int, side, other as int));
            }
        }
    } else {
        assert forall|other: usize| #[trigger]
            ways@.contains(other) <==> old(ways)@.contains(other) || field.leads(
                y as int,
                x as int,
                side,
                other as int,
            ) by {
            assert(!field.leads(y as int, x as int, side, other as int));
        }
    }
}

/// Works out, for every corner, the corners that a way leads to: the
/// corners next to it in the first `height` rows and `width` columns of the
/// corners from which no pipe of the loop parts it.
fn open_ways(adj: &mut Vec<Vec<usize>>, height: usize, width: usize, Ghost(field): Ghost<Field>)
    requires
        field.wf(),
        field.nodes() <= usize::MAX,
        height == field.height(),
        width == field.width(),
        field.ways_opened(old(adj)@, 0, 0),
    ensures
        field.ways_opened(final(adj)@, field.height() + 1, 0),
{
    let mut y: usize = 0;
    proof {
        field.lemma_numbers(field.height(), field.width(), 0, 0);
        assert((field.height() + 1) * (field.width() + 1) >= field.width() + 1 && (field.height()
            + 1) * (field.width() + 1) >= field.height() + 1) by (nonlinear_arith)
            requires
                field.height() >= 0,
                field.width() >= 0,
        ;
    }
    while y <= height
        invariant
            field.wf(),
            field.nodes() <= usize::MAX,
            height == field.height(),
            width == field.width(),
            height < usize::MAX,
            width < usize::MAX,
            y <= height + 1,
            field.ways_opened(adj@, y as int, 0),
        decreases height + 1 - y,
    {
        let mut x: usize = 0;
        while x <= width
            invariant
                field.wf(),
                field.nodes() <= usize::MAX,
                height == field.height(),
                width == field.width(),
                height < usize::MAX,
                width < usize::MAX,
                y <= height,
                x <= width + 1,
                field.ways_opened(adj@, y as int, x as int),
            decreases width + 1 - x,
        {
            proof {
                field.lemma_numbers(y as int, x as int, 0, 0);
                assert(0 <= y * (width + 1)) by (nonlinear_arith)
                    requires
                        y >= 0,
                        width >= 0,
                ;
            }
            let corner = y * (width + 1) + x + height * width;
            let up = if y == 0 {
                usize::MAX
            } else {
                y - 1
            };
            let left = if x == 0 {
                usize::MAX
            } else {
                x - 1
            };
            let mut ways: Vec<usize> = Vec::new();
            try_way(adj, &mut ways, y, x, (up, x), height, width, Ghost(field), Ghost(Side::Up));
            try_way(
                adj,
                &mut ways,
                y,
                x,
                (y + 1, x),
                height,
                width,
                Ghost(field),
                Ghost(Side::Down),
            );
            try_way(adj, &mut ways, y, x, (y, left), height, width, Ghost(field), Ghost(Side::Left));
            try_way(
                adj,
                &mut ways,
                y,
                x,
                (y, x + 1),
                height,
                width,
                Ghost(field),
                Ghost(Side::Right),
            );
            let ghost before = adj@;
            proof {
                assert forall|other: usize|
                    ways@.contains(other) <==> field.open_way(y as int, x as int, other as int) by {
                    if field.open_way(y as int, x as int, other as int) {
                        let side = choose|side: Side| #[trigger]
                            field.leads(y as int, x as int, side, other as int);
                        assert(side == Side::Up || side == Side::Down || side == Side::Left || side
                            == Side::Right);
                    }
                    if ways@.contains(other) {
                        assert(field.leads(y as int, x as int, Side::Up, other as int)
                            || field.leads(y as int, x as int, Side::Down, other as int)
                            || field.leads(y as int, x as int, Side::Left, other as int)
                            || field.leads(y as int, x as int, Side::Right, other as int));
                    }
                }
            }
            adj[corner] = ways;
            proof {
                field.lemma_way_opened(before, adj@, y as int, x as int);
            }
            x += 1;
        }
        proof {
            field.lemma_ways_next_row(adj@, y as int);
        }
        y += 1;
    }
}

impl Field {
    /// After the ways from a corner have been worked out, the corner has
    /// been gone through.
    proof fn lemma_way_opened(self, before: Seq<Vec<usize>>, after: Seq<Vec<usize>>, y: int, x: int)
        requires
            self.wf(),
            0 <= y <= self.height(),
            0 <= x <= self.width(),
            self.ways_opened(before, y, x),
            after.len() == before.len(),
            forall|other: usize|
                after[self.corner(y, x)]@.contains(other) <==> self.open_way(y, x, other as int),
            forall|node: int|
                0 <= node < before.len() && node != self.corner(y, x) ==> after[node]
                    == before[node],
        ensures
            self.ways_opened(after, y, x + 1),
    {
        self.lemma_numbers(y, x, 0, 0);
        assert forall|ty: int, tx: int|
            0 <= ty < self.height() && 0 <= tx < self.width() implies (#[trigger] after[self.tile(
            ty,
            tx,
        )])@ == if !self.piped(ty, tx) {
            self.four(ty, tx)
        } else {
            Seq::empty()
        } by {
            self.lemma_numbers(ty, tx, 0, 0);
            assert(after[self.tile(ty, tx)] == before[self.tile(ty, tx)]);
        }
        assert forall|cy: int, cx: int, other: usize|
            0 <= cy <= self.height() && 0 <= cx <= self.width() implies (#[trigger] after[self.corner(
            cy,
            cx,
        )]@.contains(other) <==> if Self::before(cy, cx, y, x + 1) {
            self.open_way(cy, cx, other as int)
        } else {
            self.blocked(self.corner(cy, cx), other as int)
        }) by {
            self.lemma_numbers(cy, cx, y, x);
            if cy != y || cx != x {
                assert(after[self.corner(cy, cx)] == before[self.corner(cy, cx)]);
            }
        }
    }

    /// With the last corner of a row the row has been gone through.
    proof fn lemma_ways_next_row(self, adj: Seq<Vec<usize>>, y: int)
        requires
            self.wf(),
            0 <= y <= self.height(),
            self.ways_opened(adj, y, self.width() + 1),
        ensures
            self.ways_opened(adj, y + 1, 0),
    {
        assert forall|cy: int, cx: int, other: usize|
            0 <= cy <= self.height() && 0 <= cx <= self.width() implies (#[trigger] adj[self.corner(
            cy,
            cx,
        )]@.contains(other) <==> if Self::before(cy, cx, y + 1, 0) {
            self.open_way(cy, cx, other as int)
        } else {
            self.blocked(self.corner(cy, cx), other as int)
        }) by {
            assert(Self::before(cy, cx, y + 1, 0) == Self::before(cy, cx, y, self.width() + 1));
        }
    }
}

impl Field {
    /// The tile in row `ty` and column `tx` bears no pipe of the loop and
    /// has the number `tile`, and its corner `at` has the number `corner`.
    pub open spec fn touches(self, ty: int, tx: int, at: int, corner: int, tile: int) -> bool {
        &&& 0 <= ty < self.height()
        &&& 0 <= tx < self.width()
        &&& !self.piped(ty, tx)
        &&& tile == self.tile(ty, tx)
        &&& 0 <= at < 4
        &&& self.four(ty, tx)[at] == corner
    }

    /// How many corners of the tile in row `ty` and column `tx` have been
    /// gone through when the tile in row `row` and column `col` has been
    /// gone through up to its corner `upto`.
    pub open spec fn gone_through(ty: int, tx: int, row: int, col: int, upto: int) -> int {
        if Self::before(ty, tx, row, col) {
            4
        } else if ty == row && tx == col {
            upto
        } else {
            0
        }
    }

    /// The corner `corner` has been found to lie on the tile `tile`, which
    /// bears no pipe of the loop.
    pub open spec fn joined(self, corner: int, tile: int, row: int, col: int, upto: int) -> bool {
        exists|ty: int, tx: int, at: int| #[trigger]
            self.touches(ty, tx, at, corner, tile) && at < Self::gone_through(
                ty,
                tx,
                row,
                col,
                upto,
            )
    }

    /// What holds while the corners are given the tiles that they lie on:
    /// every corner holds the corners that a way leads to and the tiles
    /// without a pipe of the loop that it has been found to lie on.
    pub open spec fn tiles_joined(self, adj: Seq<Vec<usize>>, row: int, col: int, upto: int) -> bool {
        &&& adj.len() == self.nodes()
        &&& forall|y: int, x: int|
            0 <= y < self.height() && 0 <= x < self.width() ==> (#[trigger] adj[self.tile(y, x)])@
                == if !self.piped(y, x) {
                self.four(y, x)
            } else {
                Seq::empty()
            }
        &&& forall|y: int, x: int, other: usize|
            0 <= y <= self.height() && 0 <= x <= self.width() ==> (#[trigger] adj[self.corner(
                y,
                x,
            )]@.contains(other) <==> self.open_way(y, x, other as int) || self.joined(
                self.corner(y, x),
                other as int,
                row,
                col,
                upto,
            ))
    }

    /// A way leads to a corner, never to a tile.
    proof fn lemma_way_to_corner(self, y: int, x: int, other: int)
        requires
            self.wf(),
            0 <= y <= self.height(),
            0 <= x <= self.width(),
            self.open_way(y, x, other),
        ensures
            self.tiles() <= other < self.nodes(),
    {
        let side = choose|side: Side| #[trigger] self.leads(y, x, side, other);
        self.lemma_numbers(next_to(y, x, side).0 as int, next_to(y, x, side).1 as int, 0, 0);
    }

    /// Once the ways between the corners are worked out, the tiles can be
    /// joined to their corners.
    proof fn lemma_ways_are_opened(self, adj: Seq<Vec<usize>>)
        requires
            self.wf(),
            self.ways_opened(adj, self.height() + 1, 0),
        ensures
            self.tiles_joined(adj, 0, 0, 0),
    {
        assert forall|y: int, x: int, other: usize|
            0 <= y <= self.height() && 0 <= x <= self.width() implies (#[trigger] adj[self.corner(
            y,
            x,
        )]@.contains(other) <==> self.open_way(y, x, other as int) || self.joined(
            self.corner(y, x),
            other as int,
            0,
            0,
            0,
        )) by {
            assert(Self::before(y, x, self.height() + 1, 0));
        }
    }

    /// After a corner of a tile has been given the tile, one more corner of
    /// the tile has been gone through.
    proof fn lemma_joined_further(
        self,
        before: Seq<Vec<usize>>,
        after: Seq<Vec<usize>>,
        y: int,
        x: int,
        at: int,
    )
        requires
            self.wf(),
            0 <= y < self.height(),
            0 <= x < self.width(),
            !self.piped(y, x),
            0 <= at < 4,
            self.nodes() <= usize::MAX,
            self.tiles_joined(before, y, x, at),
            after.len() == before.len(),
            after[self.four(y, x)[at] as int]@ == before[self.four(y, x)[at] as int]@.push(
                self.tile(y, x) as usize,
            ),
            forall|node: int|
                0 <= node < before.len() && node != self.four(y, x)[at] ==> after[node]
                    == before[node],
        ensures
            self.tiles_joined(after, y, x, at + 1),
    {
        self.lemma_numbers(y, x, 0, 0);
        self.lemma_numbers(y, x + 1, 0, 0);
        self.lemma_numbers(y + 1, x, 0, 0);
        self.lemma_numbers(y + 1, x + 1, 0, 0);
        let given = self.four(y, x)[at] as int;
        let tile = self.tile(y, x);
        assert forall|ty: int, tx: int|
            0 <= ty < self.height() && 0 <= tx < self.width() implies (#[trigger] after[self.tile(
            ty,
            tx,
        )])@ == if !self.piped(ty, tx) {
            self.four(ty, tx)
        } else {
            Seq::empty()
        } by {
            self.lemma_numbers(ty, tx, 0, 0);
            assert(after[self.tile(ty, tx)] == before[self.tile(ty, tx)]);
        }
        assert forall|cy: int, cx: int, other: usize|
            0 <= cy <= self.height() && 0 <= cx <= self.width() implies (#[trigger] after[self.corner(
            cy,
            cx,
        )]@.contains(other) <==> self.open_way(cy, cx, other as int) || self.joined(
            self.corner(cy, cx),
            other as int,
            y,
            x,
            at + 1,
        )) by {
            self.lemma_numbers(cy, cx, 0, 0);
            let corner = self.corner(cy, cx);
            if self.joined(corner, other as int, y, x, at) {
                let (ty, tx, k) = choose|ty: int, tx: int, k: int| #[trigger]
                    self.touches(ty, tx, k, corner, other as int) && k < Self::gone_through(
                        ty,
                        tx,
                        y,
                        x,
                        at,
                    );
                assert(self.touches(ty, tx, k, corner, other as int) && k < Self::gone_through(
                    ty,
                    tx,
                    y,
                    x,
                    at + 1,
                ));
            }
            if corner == given && other == tile {
                assert(self.touches(y, x, at, corner, other as int) && at < Self::gone_through(
                    y,
                    x,
                    y,
                    x,
                    at + 1,
                ));
            }
            if self.joined(corner, other as int, y, x, at + 1) {
                let (ty, tx, k) = choose|ty: int, tx: int, k: int| #[trigger]
                    self.touches(ty, tx, k, corner, other as int) && k < Self::gone_through(
                        ty,
                        tx,
                        y,
                        x,
                        at + 1,
                    );
                if ty == y && tx == x && k == at {
                } else {
                    assert(self.touches(ty, tx, k, corner, other as int) && k < Self::gone_through(
                        ty,
                        tx,
                        y,
                        x,
                        at,
                    ));
                }
            }
            if corner == given {
                lemma_push_contains(before[given]@, tile as usize, other);
            } else {
                assert(after[corner] == before[corner]);
            }
        }
    }

    /// With the last corner of a tile the tile has been gone through, and a
    /// tile with a pipe of the loop has no corner to give it to.
    proof fn lemma_joined_next(self, adj: Seq<Vec<usize>>, y: int, x: int, at: int)
        requires
            self.wf(),
            0 <= y < self.height(),
            0 <= x < self.width(),
            self.tiles_joined(adj, y, x, at),
            at == if self.piped(y, x) {
                0int
            } else {
                4int
            },
        ensures
            self.tiles_joined(adj, y, x + 1, 0),
            x + 1 == self.width() ==> self.tiles_joined(adj, y + 1, 0, 0),
    {
        assert forall|cy: int, cx: int, other: usize|
            0 <= cy <= self.height() && 0 <= cx <= self.width() implies (self.joined(
            self.corner(cy, cx),
            other as int,
            y,
            x,
            at,
        ) <==> self.joined(self.corner(cy, cx), other as int, y, x + 1, 0)) && (x + 1
            == self.width() ==> (self.joined(self.corner(cy, cx), other as int, y, x, at)
            <==> self.joined(self.corner(cy, cx), other as int, y + 1, 0, 0))) by {
            let corner = self.corner(cy, cx);
            if self.joined(corner, other as int, y, x, at) {
                let (ty, tx, k) = choose|ty: int, tx: int, k: int| #[trigger]
                    self.touches(ty, tx, k, corner, other as int) && k < Self::gone_through(
                        ty,
                        tx,
                        y,
                        x,
                        at,
                    );
                assert(self.touches(ty, tx, k, corner, other as int) && k < Self::gone_through(
                    ty,
                    tx,
                    y,
                    x + 1,
                    0,
                ));
                assert(x + 1 == self.width() ==> self.touches(ty, tx, k, corner, other as int) && k
                    < Self::gone_through(ty, tx, y + 1, 0, 0));
            }
            if self.joined(corner, other as int, y, x + 1, 0) {
                let (ty, tx, k) = choose|ty: int, tx: int, k: int| #[trigger]
                    self.touches(ty, tx, k, corner, other as int) && k < Self::gone_through(
                        ty,
                        tx,
                        y,
                        x + 1,
                        0,
                    );
                assert(self.touches(ty, tx, k, corner, other as int) && k < Self::gone_through(
                    ty,
                    tx,
                    y,
                    x,
                    at,
                ));
            }
            if x + 1 == self.width() && self.joined(corner, other as int, y + 1, 0, 0) {
                let (ty, tx, k) = choose|ty: int, tx: int, k: int| #[trigger]
                    self.touches(ty, tx, k, corner, other as int) && k < Self::gone_through(
                        ty,
                        tx,
                        y + 1,
                        0,
                        0,
                    );
                assert(self.touches(ty, tx, k, corner, other as int) && k < Self::gone_through(
                    ty,
                    tx,
                    y,
                    x,
                    at,
                ));
            }
        }
    }
}

/// Gives every corner the tiles without a pipe of the loop that it lies on.
fn join_tiles(adj: &mut Vec<Vec<usize>>, height: usize, width: usize, Ghost(field): Ghost<Field>)
    requires
        field.wf(),
        field.nodes() <= usize::MAX,
        height == field.height(),
        width == field.width(),
        field.tiles_joined(old(adj)@, 0, 0, 0),
    ensures
        field.tiles_joined(final(adj)@, field.height(), 0, 0),
{
    let mut y: usize = 0;
    while y < height
        invariant
            field.wf(),
            field.nodes() <= usize::MAX,
            height == field.height(),
            width == field.width(),
            y <= height,
            field.tiles_joined(adj@, y as int, 0, 0),
        decreases height - y,
    {
        let mut x: usize = 0;
        while x < width
            invariant
                field.wf(),
                field.nodes() <= usize::MAX,
                height == field.height(),
                width == field.width(),
                y < height,
                x <= width,
                field.tiles_joined(adj@, y as int, x as int, 0),
                x == width ==> field.tiles_joined(adj@, y + 1, 0, 0),
                width == 0 ==> field.tiles_joined(adj@, y + 1, 0, 0),
            decreases width - x,
        {
            proof {
                field.lemma_numbers(y as int, x as int, 0, 0);
                field.lemma_numbers(y as int, x + 1, 0, 0);
                field.lemma_numbers(y + 1, x as int, 0, 0);
                field.lemma_numbers(y + 1, x + 1, 0, 0);
                assert(0 <= y * width) by (nonlinear_arith)
                    requires
                        y >= 0,
                        width >= 0,
                ;
            }
            let tile = y * width + x;
            let mut at: usize = 0;
            while at < adj[tile].len()
                invariant
                    field.wf(),
                    field.nodes() <= usize::MAX,
                    height == field.height(),
                    width == field.width(),
                    y < height,
                    x < width,
                    tile == field.tile(y as int, x as int),
                    0 <= tile < field.tiles(),
                    at <= adj@[tile as int]@.len(),
                    field.tiles_joined(adj@, y as int, x as int, at as int),
                decreases adj@[tile as int]@.len() - at,
            {
                let corner = adj[tile][at];
                let ghost before = adj@;
                proof {
                    assert(before[field.tile(y as int, x as int)]@ == field.four(y as int, x as int));
                    field.lemma_numbers(y as int, x as int, 0, 0);
                    field.lemma_numbers(y as int, x + 1, 0, 0);
                    field.lemma_numbers(y + 1, x as int, 0, 0);
                    field.lemma_numbers(y + 1, x + 1, 0, 0);
                }
                adj[corner].push(tile);
                proof {
                    field.lemma_joined_further(before, adj@, y as int, x as int, at as int);
                }
                at += 1;
            }
            proof {
                assert(adj@[field.tile(y as int, x as int)]@.len() == at);
                field.lemma_joined_next(adj@, y as int, x as int, at as int);
            }
            x += 1;
        }
        y += 1;
    }
}

impl Field {
    /// The corner in row `y` and column `x` of the corners has the number
    /// `node`.
    pub open spec fn is_corner(self, y: int, x: int, node: int) -> bool {
        &&& 0 <= y <= self.height()
        &&& 0 <= x <= self.width()
        &&& node == self.corner(y, x)
    }

    /// Water flows from `from` to `to`: from a tile without a pipe of the
    /// loop to each of its corners and back, and from a corner along each
    /// way that leads from it.
    pub open spec fn flows(self, from: int, to: int) -> bool {
        ||| exists|y: int, x: int, at: int| #[trigger] self.touches(y, x, at, to, from)
        ||| exists|y: int, x: int| #[trigger] self.is_corner(y, x, from) && self.open_way(y, x, to)
        ||| exists|y: int, x: int, at: int| #[trigger] self.touches(y, x, at, from, to)
    }

    /// Where water flows, as a relation.
    pub open spec fn flowing(self) -> spec_fn(int, int) -> bool {
        |from: int, to: int| self.flows(from, to)
    }

    /// The corner lies on the border of the field.
    pub open spec fn on_border(self, y: int, x: int, node: int) -> bool {
        &&& self.is_corner(y, x, node)
        &&& (y == 0 || y == self.height() || x == 0 || x == self.width())
    }

    /// Water that comes in at the border of the field gets to `node`.
    pub open spec fn outside(self, node: int) -> bool {
        exists|y: int, x: int, start: int| #[trigger]
            self.on_border(y, x, start) && reachable(self.flowing(), start, node)
    }

    /// The tile in row `y` and column `x` bears no pipe of the loop, and no
    /// water from the border gets to it.
    pub open spec fn enclosed(self, y: int, x: int) -> bool {
        !self.piped(y, x) && !self.outside(self.tile(y, x))
    }

    /// The number of enclosed tiles among the first `upto` of row `y`.
    pub open spec fn enclosed_in_row(self, y: int, upto: int) -> int
        decreases upto,
    {
        if upto <= 0 {
            0
        } else {
            self.enclosed_in_row(y, upto - 1) + if self.enclosed(y, upto - 1) {
                1int
            } else {
                0int
            }
        }
    }

    /// The number of enclosed tiles in the first `rows` rows.
    pub open spec fn enclosed_tiles(self, rows: int) -> int
        decreases rows,
    {
        if rows <= 0 {
            0
        } else {
            self.enclosed_tiles(rows - 1) + self.enclosed_in_row(rows - 1, self.width())
        }
    }

    /// Every list holds where water flows from its tile or corner.
    pub open spec fn laid_out(self, adj: Seq<Vec<usize>>) -> bool {
        &&& adj.len() == self.nodes()
        &&& forall|node: int, other: usize|
            0 <= node < self.nodes() ==> (#[trigger] adj[node]@.contains(other) <==> self.flows(
                node,
                other as int,
            ))
    }

    /// Every number below the number of tiles and corners is that of a tile
    /// or of a corner.
    proof fn lemma_numbered(self, node: int) -> (place: (int, int))
        requires
            self.wf(),
            0 <= node < self.nodes(),
        ensures
            node < self.tiles() ==> 0 <= place.0 < self.height() && 0 <= place.1 < self.width()
                && node == self.tile(place.0, place.1),
            node >= self.tiles() ==> self.is_corner(place.0, place.1, node),
    {
        let h = self.height();
        let w = self.width();
        if node < self.tiles() {
            assert(w > 0) by (nonlinear_arith)
                requires
                    0 <= node < h * w,
                    w >= 0,
                    h >= 0,
            ;
            vstd::arithmetic::div_mod::lemma_fundamental_div_mod(node, w);
            vstd::arithmetic::div_mod::lemma_mod_bound(node, w);
            let y = node / w;
            let x = node % w;
            assert(0 <= y < h) by (nonlinear_arith)
                requires
                    node == w * y + x,
                    0 <= x < w,
                    0 <= node < h * w,
            ;
            assert(w * y == y * w) by (nonlinear_arith);
            (y, x)
        } else {
            let rest = node - self.tiles();
            vstd::arithmetic::div_mod::lemma_fundamental_div_mod(rest, w + 1);
            vstd::arithmetic::div_mod::lemma_mod_bound(rest, w + 1);
            let y = rest / (w + 1);
            let x = rest % (w + 1);
            assert(0 <= y <= h) by (nonlinear_arith)
                requires
                    rest == (w + 1) * y + x,
                    0 <= x < w + 1,
                    0 <= rest < (h + 1) * (w + 1),
            ;
            assert((w + 1) * y == y * (w + 1)) by (nonlinear_arith);
            (y, x)
        }
    }

    /// Once every corner has been given its tiles, the lists hold where
    /// water flows, and it flows to tiles and corners only.
    proof fn lemma_tiles_are_joined(self, adj: Seq<Vec<usize>>)
        requires
            self.wf(),
            self.nodes() <= usize::MAX,
            self.tiles_joined(adj, self.height(), 0, 0),
        ensures
            self.laid_out(adj),
            forall|node: int, at: int|
                0 <= node < adj.len() && 0 <= at < adj[node]@.len() ==> (#[trigger] adj[node]@[at])
                    < adj.len(),
    {
        assert forall|node: int, other: usize| 0 <= node < self.nodes() implies (
        #[trigger] adj[node]@.contains(other) <==> self.flows(node, other as int)) by {
            let (y, x) = self.lemma_numbered(node);
            self.lemma_numbers(y, x, 0, 0);
            if self.flows(node, other as int) {
                self.lemma_flows_from(node, other as int);
            }
            if node < self.tiles() {
                self.lemma_four(y, x);
                if self.flows(node, other as int) {
                    let (ty, tx, at) = choose|ty: int, tx: int, at: int| #[trigger]
                        self.touches(ty, tx, at, other as int, node);
                    self.lemma_numbers(ty, tx, y, x);
                    assert(self.four(y, x)[at] == other);
                }
                if adj[node]@.contains(other) {
                    let at = choose|at: int|
                        0 <= at < adj[node]@.len() && adj[node]@[at] == other;
                    assert(self.touches(y, x, at, other as int, node));
                }
            } else {
                let joined = self.joined(node, other as int, self.height(), 0, 0);
                if joined {
                    let (ty, tx, at) = choose|ty: int, tx: int, at: int| #[trigger]
                        self.touches(ty, tx, at, node, other as int) && at < Self::gone_through(
                            ty,
                            tx,
                            self.height(),
                            0,
                            0,
                        );
                    assert(self.touches(ty, tx, at, node, other as int));
                }
                if self.open_way(y, x, other as int) {
                    assert(self.is_corner(y, x, node));
                }
                if self.flows(node, other as int) {
                    if exists|cy: int, cx: int| #[trigger]
                        self.is_corner(cy, cx, node) && self.open_way(cy, cx, other as int) {
                        let (cy, cx) = choose|cy: int, cx: int| #[trigger]
                            self.is_corner(cy, cx, node) && self.open_way(cy, cx, other as int);
                        self.lemma_numbers(cy, cx, y, x);
                    } else {
                        let (ty, tx, at) = choose|ty: int, tx: int, at: int| #[trigger]
                            self.touches(ty, tx, at, node, other as int);
                        assert(self.touches(ty, tx, at, node, other as int) && at
                            < Self::gone_through(ty, tx, self.height(), 0, 0));
                    }
                }
            }
        }
        assert forall|node: int, at: int|
            0 <= node < adj.len() && 0 <= at < adj[node]@.len() implies (#[trigger] adj[node]@[at])
            < adj.len() by {
            let other = adj[node]@[at];
            assert(adj[node]@.contains(other));
            self.lemma_flows_within(node, other as int);
        }
    }

    /// The numbers of the four corners of a tile are those of corners.
    proof fn lemma_four(self, y: int, x: int)
        requires
            self.wf(),
            self.nodes() <= usize::MAX,
            0 <= y < self.height(),
            0 <= x < self.width(),
        ensures
            forall|at: int|
                0 <= at < 4 ==> self.tiles() <= (#[trigger] self.four(y, x)[at]) < self.nodes(),
            self.four(y, x).len() == 4,
    {
        self.lemma_numbers(y, x, 0, 0);
        self.lemma_numbers(y, x + 1, 0, 0);
        self.lemma_numbers(y + 1, x, 0, 0);
        self.lemma_numbers(y + 1, x + 1, 0, 0);
    }

    /// Water flows from tiles to corners, and from corners to tiles and
    /// corners: a tile has no number of a corner.
    proof fn lemma_flows_from(self, from: int, to: int)
        requires
            self.wf(),
            self.nodes() <= usize::MAX,
            self.flows(from, to),
        ensures
            from < self.tiles() ==> exists|y: int, x: int, at: int| #[trigger]
                self.touches(y, x, at, to, from),
            from >= self.tiles() ==> (exists|y: int, x: int| #[trigger]
                self.is_corner(y, x, from) && self.open_way(y, x, to)) || (exists|
                y: int,
                x: int,
                at: int,
            | #[trigger] self.touches(y, x, at, from, to)),
    {
        if exists|y: int, x: int, at: int| #[trigger] self.touches(y, x, at, to, from) {
            let (y, x, at) = choose|y: int, x: int, at: int| #[trigger]
                self.touches(y, x, at, to, from);
            self.lemma_numbers(y, x, 0, 0);
        }
        if exists|y: int, x: int| #[trigger] self.is_corner(y, x, from) && self.open_way(y, x, to) {
            let (y, x) = choose|y: int, x: int| #[trigger]
                self.is_corner(y, x, from) && self.open_way(y, x, to);
            self.lemma_numbers(y, x, 0, 0);
        }
        if exists|y: int, x: int, at: int| #[trigger] self.touches(y, x, at, from, to) {
            let (y, x, at) = choose|y: int, x: int, at: int| #[trigger]
                self.touches(y, x, at, from, to);
            self.lemma_four(y, x);
        }
    }

    /// Water flows between tiles and corners only.
    proof fn lemma_flows_within(self, from: int, to: int)
        requires
            self.wf(),
            self.nodes() <= usize::MAX,
            self.flows(from, to),
        ensures
            0 <= from < self.nodes(),
            0 <= to < self.nodes(),
    {
        self.lemma_numbers(0, 0, 0, 0);
        if exists|y: int, x: int, at: int| #[trigger] self.touches(y, x, at, to, from) {
            let (y, x, at) = choose|y: int, x: int, at: int| #[trigger]
                self.touches(y, x, at, to, from);
            self.lemma_numbers(y, x, 0, 0);
            self.lemma_four(y, x);
        } else if exists|y: int, x: int| #[trigger]
            self.is_corner(y, x, from) && self.open_way(y, x, to) {
            let (y, x) = choose|y: int, x: int| #[trigger]
                self.is_corner(y, x, from) && self.open_way(y, x, to);
            self.lemma_numbers(y, x, 0, 0);
            self.lemma_way_to_corner(y, x, to);
        } else {
            let (y, x, at) = choose|y: int, x: int, at: int| #[trigger]
                self.touches(y, x, at, from, to);
            self.lemma_numbers(y, x, 0, 0);
            self.lemma_four(y, x);
        }
    }
}

/// The list of `from` holds `to`, and both are numbers of lists.
pub open spec fn is_way(adj: Seq<Vec<usize>>, from: int, to: int) -> bool {
    &&& 0 <= from < adj.len()
    &&& 0 <= to < adj.len()
    &&& adj[from]@.contains(to as usize)
}

/// What the lists hold, as a relation.
pub open spec fn ways(adj: Seq<Vec<usize>>) -> spec_fn(int, int) -> bool {
    |from: int, to: int| is_way(adj, from, to)
}

/// `node` can be reached from one of the `sources`.
pub open spec fn flooded(adj: Seq<Vec<usize>>, sources: Seq<bool>, node: int) -> bool {
    exists|start: int|
        0 <= start < sources.len() && sources[start] && #[trigger] reachable(
            ways(adj),
            start,
            node,
        )
}

/// What the queue holds has been seen, and what has been seen is in the
/// queue, unless it is `in_hand` or all that its list holds has been seen.
spec fn seen_are_waiting(adj: Seq<Vec<usize>>, seen: Seq<bool>, queue: Seq<usize>, in_hand: int) -> bool {
    &&& seen.len() == adj.len()
    &&& forall|i: int| 0 <= i < queue.len() ==> (#[trigger] queue[i]) < adj.len() && seen[queue[i] as int]
    &&& forall|from: int, to: int|
        0 <= from < adj.len() && seen[from] && from != in_hand && #[trigger] is_way(adj, from, to)
            && !queue.contains(from as usize) ==> seen[to]
}

/// Marks in `seen` all that can be reached from what is marked there, which
/// waits in the queue.
fn flood(adj: &Vec<Vec<usize>>, seen: &mut Vec<bool>, queue: &mut VecDeque<usize>)
    requires
        old(seen)@.len() == adj@.len(),
        forall|node: int, at: int|
            0 <= node < adj@.len() && 0 <= at < adj@[node]@.len() ==> (#[trigger] adj@[node]@[at])
                < adj@.len(),
        forall|i: int|
            0 <= i < old(queue)@.len() ==> (#[trigger] old(queue)@[i]) < adj@.len() && old(
                seen,
            )@[old(queue)@[i] as int],
        forall|node: int|
            0 <= node < adj@.len() && old(seen)@[node] ==> old(queue)@.contains(node as usize),
    ensures
        final(seen)@.len() == adj@.len(),
        forall|node: int|
            0 <= node < adj@.len() ==> (#[trigger] final(seen)@[node] <==> flooded(
                adj@,
                old(seen)@,
                node,
            )),
{
    let ghost sources = seen@;
    let nodes = adj.len();
    proof {
        assert forall|node: int| 0 <= node < adj@.len() && seen@[node] implies flooded(
            adj@,
            sources,
            node,
        ) by {
            lemma_reachable_self(ways(adj@), node);
        }
    }
    loop
        invariant
            nodes == adj@.len(),
            sources.len() == adj@.len(),
            forall|node: int, at: int|
                0 <= node < adj@.len() && 0 <= at < adj@[node]@.len() ==> (
                #[trigger] adj@[node]@[at]) < adj@.len(),
            forall|node: int| 0 <= node < adj@.len() && sources[node] ==> seen@[node],
            forall|node: int|
                0 <= node < adj@.len() && #[trigger] seen@[node] ==> flooded(adj@, sources, node),
            seen_are_waiting(adj@, seen@, queue@, -1),
        ensures
            queue@.len() == 0,
            nodes == adj@.len(),
            sources.len() == adj@.len(),
            forall|node: int| 0 <= node < adj@.len() && sources[node] ==> seen@[node],
            forall|node: int|
                0 <= node < adj@.len() && #[trigger] seen@[node] ==> flooded(adj@, sources, node),
            seen_are_waiting(adj@, seen@, queue@, -1),
        decreases 2 * unmarked(seen@) + queue@.len(),
    {
        let ghost waiting = queue@;
        let v = match queue.pop_front() {
            Some(v) => v,
            None => {
                break ;
            },
        };
        proof {
            assert(waiting[0] == v);
            assert forall|i: int| 0 <= i < queue@.len() implies (#[trigger] queue@[i]) < adj@.len()
                && seen@[queue@[i] as int] by {
                assert(queue@[i] == waiting[i + 1]);
            }
            assert forall|from: int, to: int|
                0 <= from < adj@.len() && seen@[from] && from != v && #[trigger] is_way(
                    adj@,
                    from,
                    to,
                ) && !queue@.contains(from as usize) implies seen@[to] by {
                if waiting.contains(from as usize) {
                    let i = choose|i: int| 0 <= i < waiting.len() && waiting[i] == from as usize;
                    assert(queue@[i - 1] == waiting[i]);
                }
            }
        }
        let list = &adj[v];
        let ghost budget = 2 * unmarked(seen@) + queue@.len();
        let mut at: usize = 0;
        while at < list.len()
            invariant
                nodes == adj@.len(),
                sources.len() == adj@.len(),
                v < adj@.len(),
                list@ == adj@[v as int]@,
                at <= list@.len(),
                seen@[v as int],
                forall|node: int, at: int|
                    0 <= node < adj@.len() && 0 <= at < adj@[node]@.len() ==> (
                    #[trigger] adj@[node]@[at]) < adj@.len(),
                forall|node: int| 0 <= node < adj@.len() && sources[node] ==> seen@[node],
                forall|node: int|
                    0 <= node < adj@.len() && #[trigger] seen@[node] ==> flooded(
                        adj@,
                        sources,
                        node,
                    ),
                seen_are_waiting(adj@, seen@, queue@, v as int),
                forall|tried: int| 0 <= tried < at ==> seen@[(#[trigger] list@[tried]) as int],
                2 * unmarked(seen@) + queue@.len() <= budget,
            decreases list@.len() - at,
        {
            let v2 = list[at];
            assert(adj@[v as int]@[at as int] < adj@.len());
            if !seen[v2] {
                let ghost before = seen@;
                let ghost waiting = queue@;
                seen[v2] = true;
                queue.push_back(v2);
                proof {
                    assert(is_way(adj@, v as int, v2 as int));
                    let start = choose|start: int|
                        0 <= start < sources.len() && sources[start] && #[trigger] reachable(
                            ways(adj@),
                            start,
                            v as int,
                        );
                    lemma_reachable_step(ways(adj@), start, v as int, v2 as int);
                    lemma_unmarked_update(before, v2 as int);
                    assert(seen@ =~= before.update(v2 as int, true));
                    assert forall|node: int|
                        0 <= node < adj@.len() && #[trigger] seen@[node] implies flooded(
                        adj@,
                        sources,
                        node,
                    ) by {
                        if node != v2 {
                            assert(before[node]);
                        }
                    }
                    assert forall|i: int| 0 <= i < queue@.len() implies (#[trigger] queue@[i])
                        < adj@.len() && seen@[queue@[i] as int] by {
                        if i < waiting.len() {
                            assert(queue@[i] == waiting[i]);
                        }
                    }
                    assert forall|from: int, to: int|
                        0 <= from < adj@.len() && seen@[from] && from != v && #[trigger] is_way(
                            adj@,
                            from,
                            to,
                        ) && !queue@.contains(from as usize) implies seen@[to] by {
                        assert(queue@[waiting.len() as int] == v2);
                        assert(from != v2);
                        assert(before[from]);
                        if waiting.contains(from as usize) {
                            let i = choose|i: int|
                                0 <= i < waiting.len() && waiting[i] == from as usize;
                            assert(queue@[i] == waiting[i]);
                        }
                        assert(before[to]);
                    }
                    assert forall|tried: int| 0 <= tried < at + 1 implies seen@[(
                    #[trigger] list@[tried]) as int] by {
                        if tried < at {
                            assert(before[list@[tried] as int]);
                        }
                    }
                }
            }
            at += 1;
        }
        proof {
            assert forall|from: int, to: int|
                0 <= from < adj@.len() && seen@[from] && from != -1int && #[trigger] is_way(
                    adj@,
                    from,
                    to,
                ) && !queue@.contains(from as usize) implies seen@[to] by {
                if from == v {
                    let tried = choose|tried: int|
                        0 <= tried < adj@[from]@.len() && adj@[from]@[tried] == to as usize;
                    assert(seen@[list@[tried] as int]);
                }
            }
        }
    }
    proof {
        let marked = Set::new(|node: int| 0 <= node < adj@.len() && seen@[node]);
        assert forall|from: int, to: int| marked.contains(from) && #[trigger] ways(adj@)(
            from,
            to,
        ) implies marked.contains(to) by {
            assert(is_way(adj@, from, to));
            assert(!queue@.contains(from as usize));
        }
        assert(closed(ways(adj@), marked));
        assert forall|node: int| 0 <= node < adj@.len() && flooded(
            adj@,
            sources,
            node,
        ) implies #[trigger] seen@[node] by {
            let start = choose|start: int|
                0 <= start < sources.len() && sources[start] && #[trigger] reachable(
                    ways(adj@),
                    start,
                    node,
                );
            assert(marked.contains(start));
            lemma_closed_holds_reachable(ways(adj@), marked, start, node);
        }
    }
}

impl Field {
    /// What holds while the corners on the border are marked: nothing else
    /// is marked, and of the corners on the border those in the first
    /// `rows` rows of the left and the right side, and those in the first
    /// `cols` columns of the upper and the lower side.
    pub open spec fn brim(self, seen: Seq<bool>, rows: int, cols: int) -> bool {
        &&& seen.len() == self.nodes()
        &&& forall|node: int|
            0 <= node < self.nodes() && #[trigger] seen[node] ==> exists|y: int, x: int| #[trigger]
                self.on_border(y, x, node)
        &&& forall|y: int| 0 <= y < rows ==> #[trigger] seen[self.corner(y, 0)]
        &&& forall|y: int| 0 <= y < rows ==> #[trigger] seen[self.corner(y, self.width())]
        &&& forall|x: int| 0 <= x < cols ==> #[trigger] seen[self.corner(0, x)]
        &&& forall|x: int| 0 <= x < cols ==> #[trigger] seen[self.corner(self.height(), x)]
    }

    /// Water gets only to tiles without a pipe of the loop.
    proof fn lemma_water_on_bare(self, y: int, x: int)
        requires
            self.wf(),
            self.nodes() <= usize::MAX,
            0 <= y < self.height(),
            0 <= x < self.width(),
            self.outside(self.tile(y, x)),
        ensures
            !self.piped(y, x),
    {
        let tile = self.tile(y, x);
        let (by, bx, start) = choose|by: int, bx: int, start: int| #[trigger]
            self.on_border(by, bx, start) && reachable(self.flowing(), start, tile);
        let walk = choose|walk: Seq<int>| #[trigger]
            is_walk(self.flowing(), walk) && walk[0] == start && walk.last() == tile;
        self.lemma_numbers(by, bx, 0, 0);
        self.lemma_numbers(y, x, 0, 0);
        let last = walk.len() - 2;
        assert(self.flowing()(walk[last], walk[last + 1]));
        self.lemma_flows_into(walk[last], tile, y, x);
    }

    /// Water flows into a tile only if it bears no pipe of the loop.
    proof fn lemma_flows_into(self, from: int, to: int, y: int, x: int)
        requires
            self.wf(),
            self.nodes() <= usize::MAX,
            0 <= y < self.height(),
            0 <= x < self.width(),
            to == self.tile(y, x),
            self.flows(from, to),
        ensures
            !self.piped(y, x),
    {
        self.lemma_numbers(y, x, 0, 0);
        if exists|ty: int, tx: int, at: int| #[trigger] self.touches(ty, tx, at, to, from) {
            let (ty, tx, at) = choose|ty: int, tx: int, at: int| #[trigger]
                self.touches(ty, tx, at, to, from);
            self.lemma_four(ty, tx);
        } else if exists|cy: int, cx: int| #[trigger]
            self.is_corner(cy, cx, from) && self.open_way(cy, cx, to) {
            let (cy, cx) = choose|cy: int, cx: int| #[trigger]
                self.is_corner(cy, cx, from) && self.open_way(cy, cx, to);
            self.lemma_way_to_corner(cy, cx, to);
        } else {
            let (ty, tx, at) = choose|ty: int, tx: int, at: int| #[trigger]
                self.touches(ty, tx, at, from, to);
            self.lemma_numbers(ty, tx, y, x);
        }
    }

    /// No fewer than no tiles are enclosed.
    proof fn lemma_enclosed_at_least(self, rows: int, upto: int)
        ensures
            0 <= self.enclosed_in_row(rows, upto),
            0 <= self.enclosed_tiles(rows),
        decreases rows, upto,
    {
        if upto > 0 {
            self.lemma_enclosed_at_least(rows, upto - 1);
        }
        if rows > 0 {
            self.lemma_enclosed_at_least(rows - 1, self.width());
        }
    }
}

/// Marks `corner` and puts it in the queue.
fn start_at(seen: &mut Vec<bool>, queue: &mut VecDeque<usize>, corner: usize)
    requires
        corner < old(seen)@.len(),
        forall|i: int|
            0 <= i < old(queue)@.len() ==> (#[trigger] old(queue)@[i]) < old(seen)@.len() && old(
                seen,
            )@[old(queue)@[i] as int],
        forall|node: int|
            0 <= node < old(seen)@.len() && old(seen)@[node] ==> old(queue)@.contains(
                node as usize,
            ),
    ensures
        final(seen)@ == old(seen)@.update(corner as int, true),
        forall|i: int|
            0 <= i < final(queue)@.len() ==> (#[trigger] final(queue)@[i]) < final(seen)@.len()
                && final(seen)@[final(queue)@[i] as int],
        forall|node: int|
            0 <= node < final(seen)@.len() && final(seen)@[node] ==> final(queue)@.contains(
                node as usize,
            ),
{
    let ghost marks = seen@;
    let ghost waiting = queue@;
    seen[corner] = true;
    queue.push_back(corner);
    proof {
        assert(seen@ =~= marks.update(corner as int, true));
        assert forall|i: int| 0 <= i < queue@.len() implies (#[trigger] queue@[i]) < seen@.len()
            && seen@[queue@[i] as int] by {
            if i < waiting.len() {
                assert(queue@[i] == waiting[i]);
            }
        }
        assert forall|node: int| 0 <= node < seen@.len() && seen@[node] implies queue@.contains(
            node as usize,
        ) by {
            if node == corner {
                assert(queue@[waiting.len() as int] == corner);
            } else {
                let i = choose|i: int| 0 <= i < waiting.len() && waiting[i] == node as usize;
                assert(queue@[i] == waiting[i]);
            }
        }
    }
}

/// Marks the corners on the border of the field, and no others, and puts
/// them in a queue.
fn border(height: usize, width: usize, nodes: usize, Ghost(field): Ghost<Field>) -> (start: (
    Vec<bool>,
    VecDeque<usize>,
))
    requires
        field.wf(),
        field.nodes() == nodes,
        height == field.height(),
        width == field.width(),
    ensures
        start.0@.len() == nodes,
        forall|node: int|
            0 <= node < nodes ==> (#[trigger] start.0@[node] <==> exists|y: int, x: int| #[trigger]
                field.on_border(y, x, node)),
        forall|i: int|
            0 <= i < start.1@.len() ==> (#[trigger] start.1@[i]) < nodes && start.0@[start.1@[i] as int],
        forall|node: int| 0 <= node < nodes && start.0@[node] ==> start.1@.contains(node as usize),
{
    let mut seen = vec![false; nodes];
    let mut queue: VecDeque<usize> = VecDeque::new();
    let num_tiles = height * width;
    proof {
        field.lemma_numbers(field.height(), field.width(), 0, 0);
        assert((field.height() + 1) * (field.width() + 1) >= field.width() + 1 && (field.height()
            + 1) * (field.width() + 1) >= field.height() + 1) by (nonlinear_arith)
            requires
                field.height() >= 0,
                field.width() >= 0,
        ;
    }
    let mut y: usize = 0;
    while y <= height
        invariant
            field.wf(),
            field.nodes() == nodes,
            height == field.height(),
            width == field.width(),
            height < usize::MAX,
            width < usize::MAX,
            num_tiles == field.tiles(),
            y <= height + 1,
            field.brim(seen@, y as int, 0),
            forall|i: int|
                0 <= i < queue@.len() ==> (#[trigger] queue@[i]) < nodes && seen@[queue@[i] as int],
            forall|node: int| 0 <= node < nodes && seen@[node] ==> queue@.contains(node as usize),
        decreases height + 1 - y,
    {
        proof {
            field.lemma_numbers(y as int, 0, 0, 0);
            field.lemma_numbers(y as int, width as int, 0, 0);
            assert(0 <= y * (width + 1)) by (nonlinear_arith)
                requires
                    y >= 0,
                    width >= 0,
            ;
        }
        let ghost before = seen@;
        start_at(&mut seen, &mut queue, y * (width + 1) + num_tiles);
        start_at(&mut seen, &mut queue, y * (width + 1) + width + num_tiles);
        proof {
            assert(field.on_border(y as int, 0, field.corner(y as int, 0)));
            assert(field.on_border(y as int, width as int, field.corner(y as int, width as int)));
            assert forall|node: int|
                0 <= node < field.nodes() && #[trigger] seen@[node] implies exists|
                cy: int,
                cx: int,
            | #[trigger] field.on_border(cy, cx, node) by {
                if node != field.corner(y as int, 0) && node != field.corner(
                    y as int,
                    width as int,
                ) {
                    assert(before[node]);
                }
            }
            assert forall|cy: int| 0 <= cy < y + 1 implies #[trigger] seen@[field.corner(cy, 0)] by {
                field.lemma_numbers(cy, 0, 0, 0);
                if cy < y {
                    assert(before[field.corner(cy, 0)]);
                }
            }
            assert forall|cy: int| 0 <= cy < y + 1 implies #[trigger] seen@[field.corner(
                cy,
                field.width(),
            )] by {
                field.lemma_numbers(cy, field.width(), 0, 0);
                if cy < y {
                    assert(before[field.corner(cy, field.width())]);
                }
            }
        }
        y += 1;
    }
    let mut x: usize = 0;
    while x <= width
        invariant
            field.wf(),
            field.nodes() == nodes,
            height == field.height(),
            width == field.width(),
            height < usize::MAX,
            width < usize::MAX,
            num_tiles == field.tiles(),
            x <= width + 1,
            field.brim(seen@, height + 1, x as int),
            forall|i: int|
                0 <= i < queue@.len() ==> (#[trigger] queue@[i]) < nodes && seen@[queue@[i] as int],
            forall|node: int| 0 <= node < nodes && seen@[node] ==> queue@.contains(node as usize),
        decreases width + 1 - x,
    {
        proof {
            field.lemma_numbers(0, x as int, 0, 0);
            field.lemma_numbers(height as int, x as int, 0, 0);
            assert(0 <= height * (width + 1)) by (nonlinear_arith)
                requires
                    height >= 0,
                    width >= 0,
            ;
        }
        let ghost before = seen@;
        start_at(&mut seen, &mut queue, x + num_tiles);
        start_at(&mut seen, &mut queue, height * (width + 1) + x + num_tiles);
        proof {
            assert(field.on_border(0, x as int, field.corner(0, x as int)));
            assert(field.on_border(height as int, x as int, field.corner(height as int, x as int)));
            assert forall|node: int|
                0 <= node < field.nodes() && #[trigger] seen@[node] implies exists|
                cy: int,
                cx: int,
            | #[trigger] field.on_border(cy, cx, node) by {
                if node != field.corner(0, x as int) && node != field.corner(
                    height as int,
                    x as int,
                ) {
                    assert(before[node]);
                }
            }
            assert forall|cy: int| 0 <= cy < height + 1 implies #[trigger] seen@[field.corner(
                cy,
                0,
            )] by {
                field.lemma_numbers(cy, 0, 0, 0);
                assert(before[field.corner(cy, 0)]);
            }
            assert forall|cy: int| 0 <= cy < height + 1 implies #[trigger] seen@[field.corner(
                cy,
                field.width(),
            )] by {
                field.lemma_numbers(cy, field.width(), 0, 0);
                assert(before[field.corner(cy, field.width())]);
            }
            assert forall|cx: int| 0 <= cx < x + 1 implies #[trigger] seen@[field.corner(0, cx)] by {
                field.lemma_numbers(0, cx, 0, 0);
                if cx < x {
                    assert(before[field.corner(0, cx)]);
                }
            }
            assert forall|cx: int| 0 <= cx < x + 1 implies #[trigger] seen@[field.corner(
                field.height(),
                cx,
            )] by {
                field.lemma_numbers(field.height(), cx, 0, 0);
                if cx < x {
                    assert(before[field.corner(field.height(), cx)]);
                }
            }
        }
        x += 1;
    }
    proof {
        assert forall|node: int| 0 <= node < nodes && (exists|cy: int, cx: int| #[trigger]
            field.on_border(cy, cx, node)) implies #[trigger] seen@[node] by {
            let (cy, cx) = choose|cy: int, cx: int| #[trigger] field.on_border(cy, cx, node);
            if cx == 0 {
                assert(seen@[field.corner(cy, 0)]);
            } else if cx == field.width() {
                assert(seen@[field.corner(cy, field.width())]);
            } else if cy == 0 {
                assert(seen@[field.corner(0, cx)]);
            } else {
                assert(seen@[field.corner(field.height(), cx)]);
            }
        }
    }
    (seen, queue)
}

/// Counts the tiles that water gets to.
fn count_seen(seen: &Vec<bool>, height: usize, width: usize, Ghost(field): Ghost<Field>) -> (count:
    usize)
    requires
        field.wf(),
        field.nodes() <= usize::MAX,
        height == field.height(),
        width == field.width(),
        seen@.len() == field.nodes(),
        forall|node: int|
            0 <= node < field.nodes() ==> (#[trigger] seen@[node] <==> field.outside(node)),
    ensures
        count + field.enclosed_tiles(field.height()) == field.bare_tiles(field.height()),
{
    let mut count: usize = 0;
    let mut y: usize = 0;
    proof {
        field.lemma_numbers(0, 0, 0, 0);
    }
    while y < height
        invariant
            field.wf(),
            field.nodes() <= usize::MAX,
            height == field.height(),
            width == field.width(),
            seen@.len() == field.nodes(),
            forall|node: int|
                0 <= node < field.nodes() ==> (#[trigger] seen@[node] <==> field.outside(node)),
            y <= height,
            count <= y * width,
            count + field.enclosed_tiles(y as int) == field.bare_tiles(y as int),
        decreases height - y,
    {
        let mut x: usize = 0;
        let ghost above = count;
        while x < width
            invariant
                field.wf(),
                field.nodes() <= usize::MAX,
                height == field.height(),
                width == field.width(),
                seen@.len() == field.nodes(),
                forall|node: int|
                    0 <= node < field.nodes() ==> (#[trigger] seen@[node] <==> field.outside(node)),
                y < height,
                x <= width,
                above <= y * width,
                count <= above + x,
                above + field.enclosed_tiles(y as int) == field.bare_tiles(y as int),
                count - above + field.enclosed_in_row(y as int, x as int) == field.bare_in_row(
                    y as int,
                    x as int,
                ),
            decreases width - x,
        {
            proof {
                field.lemma_numbers(y as int, x as int, 0, 0);
                assert(0 <= y * width) by (nonlinear_arith)
                    requires
                        y >= 0,
                        width >= 0,
                ;
            }
            if seen[y * width + x] {
                proof {
                    field.lemma_water_on_bare(y as int, x as int);
                }
                count += 1;
            }
            x += 1;
        }
        proof {
            assert((y + 1) * width == y * width + width) by (nonlinear_arith);
        }
        y += 1;
    }
    count
}

/// The field of the tiles `graph`, with `on_loop` saying which of them
/// belong to the loop.
pub open spec fn field_of(graph: Seq<Vec<Tile>>, on_loop: Seq<Vec<bool>>) -> Field {
    Field { graph, on_loop }
}

/// Counts the tiles that the loop encloses: those that bear no pipe of the
/// loop and that water from the border of the field does not get to. The
/// water flows along the tiles without a pipe of the loop and between the
/// pipes, past every side of a tile that no pipe of the loop goes out by.
///
/// `graph` holds for each tile the two tiles that its pipe leads to, if it
/// has a pipe, and `is_main_loop` whether that pipe belongs to the loop. A
/// pipe of the loop that leads to a tile not next to its own is a fault:
/// the first one, going row by row, is returned.
pub fn part2(graph: &[Vec<Tile>], is_main_loop: &[Vec<bool>]) -> (count: Result<
    usize,
    InvalidNeighbor,
>)
    requires
        field_of(graph@, is_main_loop@).wf(),
        field_of(graph@, is_main_loop@).nodes() <= usize::MAX,
    ensures
        match count {
            Ok(tiles) => {
                &&& forall|y: int, x: int|
                    0 <= y < graph@.len() && 0 <= x < graph@[0]@.len() ==> #[trigger] field_of(
                        graph@,
                        is_main_loop@,
                    ).well_joined(y, x)
                &&& tiles == field_of(graph@, is_main_loop@).enclosed_tiles(graph@.len() as int)
            },
            Err(fault) => field_of(graph@, is_main_loop@).first_fault(fault),
        },
{
    let ghost field = field_of(graph@, is_main_loop@);
    let height = graph.len();
    let width = graph[0].len();
    let (mut adj, empty_tiles) = match note_sides(graph, is_main_loop, Ghost(field)) {
        Ok(noted) => noted,
        Err(fault) => {
            return Err(fault);
        },
    };
    proof {
        field.lemma_sides_are_noted(adj@);
    }
    open_ways(&mut adj, height, width, Ghost(field));
    proof {
        field.lemma_ways_are_opened(adj@);
    }
    join_tiles(&mut adj, height, width, Ghost(field));
    proof {
        field.lemma_tiles_are_joined(adj@);
    }
    let (mut seen, mut queue) = border(height, width, adj.len(), Ghost(field));
    let ghost marks = seen@;
    flood(&adj, &mut seen, &mut queue);
    proof {
        assert forall|from: int, to: int| #[trigger]
            is_way(adj@, from, to) == field.flows(from, to) by {
            if field.flows(from, to) {
                field.lemma_flows_within(from, to);
            }
        }
        assert(ways(adj@) =~= field.flowing());
        assert forall|node: int| 0 <= node < field.nodes() implies (#[trigger] seen@[node]
            <==> field.outside(node)) by {
            if flooded(adj@, marks, node) {
                let start = choose|start: int|
                    0 <= start < marks.len() && marks[start] && #[trigger] reachable(
                        ways(adj@),
                        start,
                        node,
                    );
                let (y, x) = choose|y: int, x: int| #[trigger] field.on_border(y, x, start);
                assert(field.on_border(y, x, start) && reachable(field.flowing(), start, node));
            }
            if field.outside(node) {
                let (y, x, start) = choose|y: int, x: int, start: int| #[trigger]
                    field.on_border(y, x, start) && reachable(field.flowing(), start, node);
                field.lemma_numbers(y, x, 0, 0);
                assert(marks[start]);
                assert(reachable(ways(adj@), start, node));
            }
        }
        field.lemma_enclosed_at_least(field.height(), 0);
    }
    let seen_tiles = count_seen(&seen, height, width, Ghost(field));
    Ok(empty_tiles - seen_tiles)
}

} // verus!
