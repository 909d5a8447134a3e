use vstd::prelude::*;
use std::collections::VecDeque;
use crate::reach::{
    closed, is_distance, is_walk, lemma_closed_holds_reachable, lemma_unmarked_update,
    lemma_within_self, lemma_within_step, reachable, unmarked, within,
};

verus! {

/// A tile of a field: the two tiles that a pipe joins, or nothing where no
/// pipe lies.
pub type Tile = Option<[(usize, usize); 2]>;

/// The field has a row, and all its rows are of one length.
pub open spec fn is_field(graph: Seq<Vec<Tile>>) -> bool {
    &&& graph.len() >= 1
    &&& forall|row: int| 0 <= row < graph.len() ==> (#[trigger] graph[row])@.len() == graph[0]@.len()
}

/// The tile lies in the field.
pub open spec fn in_field(graph: Seq<Vec<Tile>>, node: (usize, usize)) -> bool {
    node.0 < graph.len() && node.1 < graph[0]@.len()
}

/// What lies on a tile of the field.
pub open spec fn tile_at(graph: Seq<Vec<Tile>>, node: (usize, usize)) -> Tile {
    graph[node.0 as int]@[node.1 as int]
}

/// A pipe lies on `from` and joins it to `to`.
pub open spec fn joined(graph: Seq<Vec<Tile>>, from: (usize, usize), to: (usize, usize)) -> bool {
    &&& in_field(graph, from)
    &&& tile_at(graph, from) matches Some(ends) && (ends[0] == to || ends[1] == to)
}

/// The ways along the pipes from tile to tile.
pub open spec fn pipes(graph: Seq<Vec<Tile>>) -> spec_fn((usize, usize), (usize, usize)) -> bool {
    |from: (usize, usize), to: (usize, usize)| joined(graph, from, to)
}

/// Every pipe of the field joins tiles of the field on which pipes lie.
pub open spec fn all_joined(graph: Seq<Vec<Tile>>) -> bool {
    forall|from: (usize, usize), to: (usize, usize)| #[trigger]
        joined(graph, from, to) ==> in_field(graph, to) && tile_at(graph, to) is Some
}

/// The number of tiles that are not marked.
pub open spec fn unmarked_tiles(seen: Seq<Vec<bool>>) -> nat
    decreases seen.len(),
{
    if seen.len() == 0 {
        0
    } else {
        unmarked_tiles(seen.drop_last()) + unmarked(seen.last()@)
    }
}

/// Marking a tile leaves one fewer unmarked.
proof fn lemma_unmarked_tiles_update(seen: Seq<Vec<bool>>, row: int, marks: Vec<bool>, col: int)
    requires
        0 <= row < seen.len(),
        0 <= col < seen[row]@.len(),
        !seen[row]@[col],
        marks@ == seen[row]@.update(col, true),
    ensures
        unmarked_tiles(seen.update(row, marks)) + 1 == unmarked_tiles(seen),
    decreases seen.len(),
{
    let updated = seen.update(row, marks);
    if row == seen.len() - 1 {
        assert(updated.drop_last() =~= seen.drop_last());
        lemma_unmarked_update(seen[row]@, col);
    } else {
        assert(updated.drop_last() =~= seen.drop_last().update(row, marks));
        lemma_unmarked_tiles_update(seen.drop_last(), row, marks, col);
    }
}

/// Where nothing is marked, every tile is unmarked.
proof fn lemma_nothing_marked(seen: Seq<Vec<bool>>, width: int)
    requires
        forall|row: int, col: int|
            0 <= row < seen.len() && 0 <= col < width ==> !(#[trigger] seen[row]@[col]),
        forall|row: int| 0 <= row < seen.len() ==> (#[trigger] seen[row])@.len() == width,
        width >= 0,
    ensures
        unmarked_tiles(seen) == seen.len() * width,
    decreases seen.len(),
{
    if seen.len() > 0 {
        let rest = seen.drop_last();
        assert forall|row: int, col: int|
            0 <= row < rest.len() && 0 <= col < width implies !(#[trigger] rest[row]@[col]) by {
            assert(rest[row] == seen[row]);
            assert(!seen[row]@[col]);
        }
        assert forall|row: int| 0 <= row < rest.len() implies (#[trigger] rest[row])@.len()
            == width by {
            assert(rest[row] == seen[row]);
        }
        lemma_nothing_marked(rest, width);
        lemma_unmarked_all(seen.last()@, width);
        assert(seen.len() * width == (seen.len() - 1) * width + width) by (nonlinear_arith);
    } else {
        assert(seen.len() * width == 0) by (nonlinear_arith)
            requires
                seen.len() == 0,
        ;
    }
}

/// A row without a mark has as many unmarked places as it is long.
proof fn lemma_unmarked_all(marks: Seq<bool>, width: int)
    requires
        marks.len() == width,
        forall|col: int| 0 <= col < width ==> !marks[col],
    ensures
        unmarked(marks) == width,
    decreases marks.len(),
{
    if marks.len() > 0 {
        lemma_unmarked_all(marks.drop_last(), width - 1);
    }
}

/// Whether a tile is marked.
spec fn marked(seen: Seq<Vec<bool>>, node: (usize, usize)) -> bool {
    seen[node.0 as int]@[node.1 as int]
}

/// Whether a tile waits in the queue.
spec fn waits(queue: Seq<((usize, usize), usize)>, node: (usize, usize)) -> bool {
    exists|i: int| 0 <= i < queue.len() && (#[trigger] queue[i]).0 == node
}

/// The greatest number of steps that is recorded: that of the tile at the
/// back of the queue, or of the tile that was taken out last.
spec fn top(queue: Seq<((usize, usize), usize)>, last: int) -> int {
    if queue.len() > 0 {
        queue.last().1 as int
    } else {
        last
    }
}

/// What holds of the marked tiles: pipes lie on them, and each is as many
/// steps along the pipes from the start as is recorded for it.
spec fn levels_hold(
    graph: Seq<Vec<Tile>>,
    seen: Seq<Vec<bool>>,
    level: spec_fn((usize, usize)) -> int,
    start: (usize, usize),
) -> bool {
    &&& seen.len() == graph.len()
    &&& forall|row: int| 0 <= row < seen.len() ==> (#[trigger] seen[row])@.len() == graph[0]@.len()
    &&& in_field(graph, start)
    &&& marked(seen, start)
    &&& level(start) == 0
    &&& forall|node: (usize, usize)|
        in_field(graph, node) && #[trigger] marked(seen, node) ==> level(node) >= 0 && within(
            pipes(graph),
            start,
            node,
            level(node),
        ) && tile_at(graph, node) is Some
}

/// What holds of the queue: the tiles in it are marked, each with the
/// number of steps that is recorded for it, in ascending order, and the
/// last at most one step further than the first.
spec fn queue_holds(
    graph: Seq<Vec<Tile>>,
    seen: Seq<Vec<bool>>,
    level: spec_fn((usize, usize)) -> int,
    queue: Seq<((usize, usize), usize)>,
    last: int,
) -> bool {
    &&& forall|i: int|
        0 <= i < queue.len() ==> in_field(graph, (#[trigger] queue[i]).0) && marked(
            seen,
            queue[i].0,
        ) && queue[i].1 == level(queue[i].0)
    &&& forall|i: int, j: int|
        0 <= i <= j < queue.len() ==> (#[trigger] queue[i]).1 <= (#[trigger] queue[j]).1
    &&& queue.len() > 0 ==> queue.last().1 <= queue[0].1 + 1 && last <= queue[0].1
    &&& forall|node: (usize, usize)|
        in_field(graph, node) && #[trigger] marked(seen, node) ==> level(node) <= top(
            queue,
            last,
        )
}

/// Every marked tile that neither waits in the queue nor is in hand has
/// marked tiles at both ends of its pipe, each at most one step further.
spec fn ends_are_marked(
    graph: Seq<Vec<Tile>>,
    seen: Seq<Vec<bool>>,
    level: spec_fn((usize, usize)) -> int,
    queue: Seq<((usize, usize), usize)>,
    in_hand: Option<(usize, usize)>,
) -> bool {
    forall|from: (usize, usize), to: (usize, usize)|
        marked(seen, from) && in_hand != Some(from) && !waits(queue, from) && #[trigger] joined(
            graph,
            from,
            to,
        ) ==> marked(seen, to) && level(to) <= level(from) + 1
}

/// Along a walk from the start every tile is marked, with a number of
/// steps that is no more than the walk has taken.
proof fn lemma_no_further(
    graph: Seq<Vec<Tile>>,
    seen: Seq<Vec<bool>>,
    level: spec_fn((usize, usize)) -> int,
    start: (usize, usize),
    walk: Seq<(usize, usize)>,
    upto: int,
)
    requires
        all_joined(graph),
        levels_hold(graph, seen, level, start),
        ends_are_marked(graph, seen, level, Seq::empty(), None),
        is_walk(pipes(graph), walk),
        walk[0] == start,
        0 <= upto < walk.len(),
    ensures
        in_field(graph, walk[upto]),
        marked(seen, walk[upto]),
        level(walk[upto]) <= upto,
    decreases upto,
{
    if upto > 0 {
        lemma_no_further(graph, seen, level, start, walk, upto - 1);
        let from = walk[upto - 1];
        assert(pipes(graph)(walk[upto - 1], walk[upto - 1 + 1]));
        assert(joined(graph, from, walk[upto]));
        assert(!waits(Seq::<((usize, usize), usize)>::empty(), from));
    }
}

/// The number of steps along the pipes from `start` to the tile that is
/// furthest from it, and a table that says of each tile whether the pipes
/// lead to it from `start`.
pub fn part1(graph: &[Vec<Tile>], start: (usize, usize)) -> (found: (usize, Vec<Vec<bool>>))
    requires
        is_field(graph@),
        all_joined(graph@),
        in_field(graph@, start),
        tile_at(graph@, start) is Some,
        graph@.len() * graph@[0]@.len() <= usize::MAX,
    ensures
        found.1@.len() == graph@.len(),
        forall|row: int| 0 <= row < graph@.len() ==> (#[trigger] found.1@[row])@.len() == graph@[0]@.len(),
        forall|node: (usize, usize)|
            in_field(graph@, node) ==> (#[trigger] found.1@[node.0 as int]@[node.1 as int]
                <==> reachable(pipes(graph@), start, node)),
        exists|far: (usize, usize)| #[trigger] is_distance(pipes(graph@), start, far, found.0 as int),
        forall|node: (usize, usize), steps: int| #[trigger]
            is_distance(pipes(graph@), start, node, steps) ==> steps <= found.0,
{
    let height = graph.len();
    let width = graph[0].len();
    let mut seen = vec![vec![false; width]; height];
    let mut queue: VecDeque<((usize, usize), usize)> = VecDeque::new();
    let mut max_dist: usize = 0;
    let ghost cells = height * width;
    let ghost mut level: spec_fn((usize, usize)) -> int = |node: (usize, usize)| 0int;
    let ghost mut far = start;
    proof {
        lemma_nothing_marked(seen@, width as int);
    }
    let ghost blank = seen@;
    seen[start.0][start.1] = true;
    queue.push_back((start, 0));
    proof {
        lemma_unmarked_tiles_update(blank, start.0 as int, seen@[start.0 as int], start.1 as int);
        assert(seen@ =~= blank.update(start.0 as int, seen@[start.0 as int]));
        lemma_within_self(pipes(graph@), start);
        assert(queue@ =~= seq![(start, 0usize)]);
        assert(queue@[0].0 == start);
        assert forall|node: (usize, usize)|
            in_field(graph@, node) && #[trigger] marked(seen@, node) implies node == start by {
            if node.0 != start.0 {
                assert(seen@[node.0 as int] == blank[node.0 as int]);
            }
        }
        assert(waits(queue@, start));
    }
    loop
        invariant
            is_field(graph@),
            all_joined(graph@),
            height == graph@.len(),
            width == graph@[0]@.len(),
            cells == height * width,
            cells <= usize::MAX,
            levels_hold(graph@, seen@, level, start),
            queue_holds(graph@, seen@, level, queue@, max_dist as int),
            ends_are_marked(graph@, seen@, level, queue@, None),
            top(queue@, max_dist as int) + unmarked_tiles(seen@) <= cells - 1,
            queue@.len() == 0 ==> in_field(graph@, far) && marked(seen@, far) && level(far)
                == max_dist,
        ensures
            queue@.len() == 0,
            height == graph@.len(),
            width == graph@[0]@.len(),
            levels_hold(graph@, seen@, level, start),
            queue_holds(graph@, seen@, level, queue@, max_dist as int),
            ends_are_marked(graph@, seen@, level, queue@, None),
            in_field(graph@, far) && marked(seen@, far) && level(far) == max_dist,
        decreases 2 * unmarked_tiles(seen@) + queue@.len(),
    {
        let ghost waiting = queue@;
        let ((y, x), distance) = match queue.pop_front() {
            Some(front) => front,
            None => {
                break ;
            },
        };
        max_dist = distance;
        let ghost here = (y, x);
        proof {
            far = here;
            assert(waiting[0] == (here, distance));
            assert forall|i: int| 0 <= i < queue@.len() implies in_field(
                graph@,
                (#[trigger] queue@[i]).0,
            ) && marked(seen@, queue@[i].0) && queue@[i].1 == level(queue@[i].0) by {
                assert(queue@[i] == waiting[i + 1]);
            }
            assert forall|i: int, j: int| 0 <= i <= j < queue@.len() implies (
            #[trigger] queue@[i]).1 <= (#[trigger] queue@[j]).1 by {
                assert(queue@[i] == waiting[i + 1]);
                assert(queue@[j] == waiting[j + 1]);
            }
            if queue@.len() > 0 {
                assert(queue@.last() == waiting.last());
                assert(queue@[0] == waiting[1]);
                assert(waiting[0].1 <= waiting[1].1);
            }
            assert forall|from: (usize, usize), to: (usize, usize)|
                marked(seen@, from) && Some(here) != Some(from) && !waits(queue@, from)
                    && #[trigger] joined(graph@, from, to) implies marked(seen@, to) && level(to)
                <= level(from) + 1 by {
                if waits(waiting, from) {
                    let i = choose|i: int| 0 <= i < waiting.len() && (#[trigger] waiting[i]).0 == from;
                    assert(queue@[i - 1] == waiting[i]);
                }
            }
        }
        let ends = graph[y][x].unwrap();
        let ghost budget = 2 * unmarked_tiles(seen@) + queue@.len();
        let mut k: usize = 0;
        while k < 2
            invariant
                is_field(graph@),
                all_joined(graph@),
                height == graph@.len(),
                width == graph@[0]@.len(),
                cells == height * width,
                cells <= usize::MAX,
                here == (y, x),
                in_field(graph@, here),
                marked(seen@, here),
                level(here) == distance,
                max_dist == distance,
                tile_at(graph@, here) == Some(ends),
                k <= 2,
                levels_hold(graph@, seen@, level, start),
                queue_holds(graph@, seen@, level, queue@, max_dist as int),
                ends_are_marked(graph@, seen@, level, queue@, Some(here)),
                top(queue@, max_dist as int) <= distance + 1,
                top(queue@, max_dist as int) + unmarked_tiles(seen@) <= cells - 1,
                forall|tried: int|
                    0 <= tried < k ==> marked(seen@, #[trigger] ends@[tried]) && level(ends@[tried])
                        <= distance + 1,
                2 * unmarked_tiles(seen@) + queue@.len() <= budget,
            decreases 2 - k,
        {
            let (ny, nx) = ends[k];
            let ghost next = (ny, nx);
            proof {
                assert(joined(graph@, here, next));
            }
            if !seen[ny][nx] {
                let ghost before = seen@;
                let ghost queued = queue@;
                let ghost old_level = level;
                seen[ny][nx] = true;
                queue.push_back(((ny, nx), distance + 1));
                proof {
                    level = |node: (usize, usize)|
                        if node == next {
                            distance + 1
                        } else {
                            old_level(node)
                        };
                    assert(seen@ =~= before.update(ny as int, seen@[ny as int]));
                    lemma_unmarked_tiles_update(before, ny as int, seen@[ny as int], nx as int);
                    lemma_within_step(pipes(graph@), start, here, next, distance as int);
                    assert forall|node: (usize, usize)|
                        in_field(graph@, node) && #[trigger] marked(seen@, node) implies level(node)
                        >= 0 && within(pipes(graph@), start, node, level(node)) && tile_at(
                        graph@,
                        node,
                    ) is Some by {
                        if node != next {
                            assert(marked(before, node));
                        }
                    }
                    assert forall|i: int| 0 <= i < queue@.len() implies in_field(
                        graph@,
                        (#[trigger] queue@[i]).0,
                    ) && marked(seen@, queue@[i].0) && queue@[i].1 == level(queue@[i].0) by {
                        if i < queued.len() {
                            assert(queue@[i] == queued[i]);
                            assert(marked(before, queued[i].0));
                        }
                    }
                    assert forall|i: int, j: int| 0 <= i <= j < queue@.len() implies (
                    #[trigger] queue@[i]).1 <= (#[trigger] queue@[j]).1 by {
                        if j < queued.len() {
                            assert(queue@[i] == queued[i]);
                            assert(queue@[j] == queued[j]);
                        } else if i < queued.len() {
                            assert(queue@[i] == queued[i]);
                            assert(queued[i].1 <= queued.last().1);
                        }
                    }
                    if queued.len() > 0 {
                        assert(queue@[0] == queued[0]);
                    }
                    assert forall|node: (usize, usize)|
                        in_field(graph@, node) && #[trigger] marked(seen@, node) implies level(node)
                        <= top(queue@, max_dist as int) by {
                        if node != next {
                            assert(marked(before, node));
                        }
                    }
                    assert forall|from: (usize, usize), to: (usize, usize)|
                        marked(seen@, from) && Some(here) != Some(from) && !waits(queue@, from)
                            && #[trigger] joined(graph@, from, to) implies marked(seen@, to)
                        && level(to) <= level(from) + 1 by {
                        assert(queue@[queued.len() as int].0 == next);
                        assert(from != next);
                        assert(marked(before, from));
                        if waits(queued, from) {
                            let i = choose|i: int|
                                0 <= i < queued.len() && (#[trigger] queued[i]).0 == from;
                            assert(queue@[i] == queued[i]);
                        }
                        assert(marked(before, to));
                    }
                    assert forall|tried: int| 0 <= tried < k + 1 implies marked(
                        seen@,
                        #[trigger] ends@[tried],
                    ) && level(ends@[tried]) <= distance + 1 by {
                        if tried < k {
                            assert(marked(before, ends@[tried]));
                            assert(old_level(ends@[tried]) <= distance + 1);
                            assert(joined(graph@, here, ends@[tried]));
                        } else {
                            assert(ends@[tried] == next);
                        }
                    }
                }
            } else {
                proof {
                    assert(in_field(graph@, next));
                    assert(marked(seen@, next));
                    assert(level(next) <= top(queue@, max_dist as int));
                    assert forall|tried: int| 0 <= tried < k + 1 implies marked(
                        seen@,
                        #[trigger] ends@[tried],
                    ) && level(ends@[tried]) <= distance + 1 by {
                        if tried == k {
                            assert(ends@[tried] == next);
                        }
                    }
                }
            }
            k += 1;
        }
        proof {
            assert forall|from: (usize, usize), to: (usize, usize)|
                marked(seen@, from) && !waits(queue@, from) && #[trigger] joined(
                    graph@,
                    from,
                    to,
                ) implies marked(seen@, to) && level(to) <= level(from) + 1 by {
                if from == here {
                    assert(to == ends@[0] || to == ends@[1]);
                }
            }
        }
    }
    proof {
        let edge = pipes(graph@);
        let marks = Set::new(|node: (usize, usize)| in_field(graph@, node) && marked(seen@, node));
        assert(queue@ =~= Seq::empty());
        assert forall|from: (usize, usize), to: (usize, usize)| marks.contains(from) && #[trigger] edge(
            from,
            to,
        ) implies marks.contains(to) by {
            assert(joined(graph@, from, to));
            assert(!waits(queue@, from));
        }
        assert(closed(edge, marks));
        assert forall|node: (usize, usize)| in_field(graph@, node) implies (#[trigger] seen@[node.0 as int]@[node.1 as int]
            <==> reachable(edge, start, node)) by {
            if reachable(edge, start, node) {
                lemma_closed_holds_reachable(edge, marks, start, node);
            }
            if marked(seen@, node) {
                let walk = choose|walk: Seq<(usize, usize)>| #[trigger]
                    is_walk(edge, walk) && walk[0] == start && walk.last() == node && walk.len()
                        == level(node) + 1;
                assert(is_walk(edge, walk) && walk[0] == start && walk.last() == node);
            }
        }
        assert forall|node: (usize, usize), steps: int| #[trigger]
            within(edge, start, node, steps) implies in_field(graph@, node) && marked(seen@, node)
            && level(node) <= steps by {
            let walk = choose|walk: Seq<(usize, usize)>| #[trigger]
                is_walk(edge, walk) && walk[0] == start && walk.last() == node && walk.len()
                    == steps + 1;
            lemma_no_further(graph@, seen@, level, start, walk, steps);
        }
        assert(within(edge, start, far, level(far)));
        assert(is_distance(edge, start, far, max_dist as int));
        assert forall|node: (usize, usize), steps: int| #[trigger]
            is_distance(edge, start, node, steps) implies steps <= max_dist by {
            assert(within(edge, start, node, steps));
            assert(within(edge, start, node, level(node)));
            assert(level(node) <= top(queue@, max_dist as int));
        }
    }
    let found = (max_dist, seen);
    assert(is_distance(pipes(graph@), start, far, found.0 as int));
    found
}

} // verus!
