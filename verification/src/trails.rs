use vstd::prelude::*;

verus! {

/// The cell in row `row` and column `col` of `grid` with its byte, as a
/// sequence of one item, or the empty sequence where the grid has no such
/// cell.
pub open spec fn cell_if_any(grid: Seq<&[u8]>, row: int, col: int) -> Seq<(usize, usize, u8)> {
    if 0 <= row < grid.len() && 0 <= col < grid[row]@.len() {
        seq![(row as usize, col as usize, grid[row]@[col])]
    } else {
        Seq::empty()
    }
}

/// The cells next to (`y`, `x`) that the grid has: the one below, the one to
/// the right, the one above and the one to the left, in this order.
pub open spec fn spec_grid_neighbors(grid: Seq<&[u8]>, y: int, x: int) -> Seq<(usize, usize, u8)> {
    cell_if_any(grid, y + 1, x) + cell_if_any(grid, y, x + 1) + cell_if_any(grid, y - 1, x)
        + cell_if_any(grid, y, x - 1)
}

/// Appends the cell at (`row`, `col`) to `found` if the grid has it.
fn push_cell(grid: &[&[u8]], row: usize, col: usize, found: &mut Vec<(usize, usize, u8)>)
    ensures
        final(found)@ == old(found)@ + cell_if_any(grid@, row as int, col as int),
{
    if row < grid.len() {
        let line = grid[row];
        if col < line.len() {
            found.push((row, col, line[col]));
            assert(final(found)@ =~= old(found)@ + cell_if_any(grid@, row as int, col as int));
            return ;
        }
    }
    assert(final(found)@ =~= old(found)@ + cell_if_any(grid@, row as int, col as int));
}

/// The cells next to (`y`, `x`) that the grid has, each with its byte: the
/// one below, the one to the right, the one above and the one to the left,
/// in this order.
pub fn grid_neighbors(y: usize, x: usize, grid: &[&[u8]]) -> (found: Vec<(usize, usize, u8)>)
    requires
        y < usize::MAX,
        x < usize::MAX,
    ensures
        found@ == spec_grid_neighbors(grid@, y as int, x as int),
{
    let mut found: Vec<(usize, usize, u8)> = Vec::new();
    assert(found@ =~= Seq::empty());
    push_cell(grid, y + 1, x, &mut found);
    push_cell(grid, y, x + 1, &mut found);
    if y > 0 {
        push_cell(grid, y - 1, x, &mut found);
    }
    if x > 0 {
        push_cell(grid, y, x - 1, &mut found);
    }
    assert(found@ =~= spec_grid_neighbors(grid@, y as int, x as int));
    found
}

/// The most nodes that a graph can have.
pub const MAX_SIZE: usize = 128;

/// A graph of up to 128 nodes. Bit `to` of `adj[from]` is set where an edge
/// leads from `from` to `to`.
#[derive(Debug, Clone)]
pub struct Graph {
    pub num_nodes: usize,
    pub adj: [u128; 128],
    pub node_weights: [u16; 128],
    pub start: usize,
    pub target: usize,
}

/// Whether bit `i` of `bits` is set.
pub open spec fn has_bit(bits: u128, i: int) -> bool {
    0 <= i < 128 && (bits >> (i as u128)) & 1 == 1
}

/// The numbers below `upto` of the bits of `bits` that are set, in
/// ascending order.
pub open spec fn set_bits(bits: u128, upto: int) -> Seq<usize>
    decreases upto,
{
    if upto <= 0 {
        Seq::empty()
    } else if has_bit(bits, upto - 1) {
        set_bits(bits, upto - 1).push((upto - 1) as usize)
    } else {
        set_bits(bits, upto - 1)
    }
}

/// What `u128::trailing_zeros` returns: the number of bits that are not set
/// below the lowest bit that is, and 128 where none is.
pub assume_specification[ u128::trailing_zeros ](bits: u128) -> (zeros: u32)
    ensures
        zeros <= 128,
        bits == 0 ==> zeros == 128,
        bits != 0 ==> zeros < 128 && (bits >> (zeros as u128)) & 1 == 1 && bits & (((1u128 << (
        zeros as u128)) - 1) as u128) == 0,
;

/// Taking one off a number and keeping the bits that both have clears the
/// lowest bit that is set and leaves the others.
proof fn lemma_without_lowest(bits: u128, lowest: u128, i: u128)
    by (bit_vector)
    requires
        lowest < 128,
        i < 128,
        (bits >> lowest) & 1 == 1,
        bits & (((1u128 << lowest) - 1) as u128) == 0,
    ensures
        ((bits & ((bits - 1) as u128)) >> i) & 1 == (if i == lowest {
            0u128
        } else {
            (bits >> i) & 1
        }),
        i < lowest ==> (bits >> i) & 1 == 0,
{
}

/// A number with a bit set is not zero.
proof fn lemma_bit_of_zero(i: u128)
    by (bit_vector)
    requires
        i < 128,
    ensures
        (0u128 >> i) & 1 == 0,
{
}

/// Where no bit from `from` up to `to` is set, the set bits below `to` are
/// those below `from`.
proof fn lemma_set_bits_skip(bits: u128, from: int, to: int)
    requires
        0 <= from <= to,
        forall|i: int| from <= i < to ==> !has_bit(bits, i),
    ensures
        set_bits(bits, to) == set_bits(bits, from),
    decreases to - from,
{
    if from < to {
        lemma_set_bits_skip(bits, from, to - 1);
    }
}

impl Graph {
    /// The nodes that an edge leads to from `v`, as far as their bit in
    /// `mask` is set, in ascending order.
    pub fn neighbors(&self, v: usize, mask: u128) -> (found: Vec<usize>)
        requires
            v < MAX_SIZE,
        ensures
            found@ == set_bits(self.adj@[v as int] & mask, MAX_SIZE as int),
    {
        let all = self.adj[v] & mask;
        let mut bs = all;
        let mut found: Vec<usize> = Vec::new();
        let ghost mut cut: int = 0;
        while bs != 0
            invariant
                0 <= cut <= 128,
                found@ == set_bits(all, cut),
                forall|i: int| 0 <= i < 128 ==> (has_bit(bs, i) <==> has_bit(all, i) && i >= cut),
            decreases 128 - cut,
        {
            let zeros = bs.trailing_zeros();
            let v2 = zeros as usize;
            let ghost before = bs;
            proof {
                assert(has_bit(bs, v2 as int));
                assert forall|i: int| cut <= i < v2 implies !has_bit(all, i) by {
                    lemma_without_lowest(bs, zeros as u128, i as u128);
                }
                lemma_set_bits_skip(all, cut, v2 as int);
            }
            bs = bs & (bs - 1);
            found.push(v2);
            proof {
                assert forall|i: int| 0 <= i < 128 implies (has_bit(bs, i) <==> has_bit(all, i) && i
                    >= v2 + 1) by {
                    lemma_without_lowest(before, zeros as u128, i as u128);
                }
                cut = v2 + 1;
            }
        }
        proof {
            assert forall|i: int| cut <= i < 128 implies !has_bit(all, i) by {
                lemma_bit_of_zero(i as u128);
            }
            lemma_set_bits_skip(all, cut, 128);
        }
        found
    }
}

/// The number of bits below `upto` that are not set.
pub open spec fn clear_bits(bits: u128, upto: int) -> nat
    decreases upto,
{
    if upto <= 0 {
        0
    } else {
        clear_bits(bits, upto - 1) + if has_bit(bits, upto - 1) {
            0nat
        } else {
            1nat
        }
    }
}

/// `bits` with bit `i` set as well.
pub open spec fn with_bit(bits: u128, i: int) -> u128 {
    bits | (1u128 << (i as u128))
}

/// The nodes one edge away from `v` that are not among `seen`, in ascending
/// order.
pub open spec fn onward(graph: Graph, v: int, seen: u128) -> Seq<usize> {
    set_bits(graph.adj@[v] & !seen, MAX_SIZE as int)
}

/// How far a walk can still go that is at `v` and has been to `seen`:
/// it grows shorter with every node that the walk leaves behind.
pub open spec fn room(v: int, seen: u128) -> nat {
    2 * clear_bits(seen, 128) + if has_bit(seen, v) {
        1nat
    } else {
        0nat
    }
}

/// Setting a bit sets that bit and leaves the others.
proof fn lemma_or_bit(bits: u128, i: u128, j: u128)
    by (bit_vector)
    requires
        i < 128,
        j < 128,
    ensures
        ((bits | (1u128 << i)) >> j) & 1 == (if i == j {
            1u128
        } else {
            (bits >> j) & 1
        }),
{
}

/// A bit that is left after the bits of `seen` were taken out was set and
/// is not one of them.
proof fn lemma_and_not(bits: u128, seen: u128, j: u128)
    by (bit_vector)
    requires
        j < 128,
        ((bits & !seen) >> j) & 1 == 1,
    ensures
        (seen >> j) & 1 == 0,
        (bits >> j) & 1 == 1,
{
}

/// Setting a bit leaves one bit fewer clear if it was clear, and as many
/// if it was set.
proof fn lemma_clear_bits_with(bits: u128, i: int, upto: int)
    requires
        0 <= i < 128,
        0 <= upto <= 128,
    ensures
        clear_bits(with_bit(bits, i), upto) + (if i < upto && !has_bit(bits, i) {
            1nat
        } else {
            0nat
        }) == clear_bits(bits, upto),
    decreases upto,
{
    if upto > 0 {
        lemma_clear_bits_with(bits, i, upto - 1);
        lemma_or_bit(bits, i as u128, (upto - 1) as u128);
    }
}

/// The set bits are numbers below `upto`, each of a bit that is set, and
/// there are at most `upto` of them.
proof fn lemma_set_bits_are_set(bits: u128, upto: int)
    requires
        0 <= upto <= 128,
    ensures
        set_bits(bits, upto).len() <= upto,
        forall|k: int|
            0 <= k < set_bits(bits, upto).len() ==> has_bit(
                bits,
                (#[trigger] set_bits(bits, upto)[k]) as int,
            ) && set_bits(bits, upto)[k] < upto,
    decreases upto,
{
    if upto > 0 {
        lemma_set_bits_are_set(bits, upto - 1);
    }
}

/// A step along an edge to a node that has not been seen leaves less room.
proof fn lemma_less_room(graph: Graph, v: int, seen: u128, k: int)
    requires
        0 <= v < 128,
        0 <= k < onward(graph, v, seen).len(),
    ensures
        onward(graph, v, seen)[k] < 128,
        !has_bit(seen, onward(graph, v, seen)[k] as int),
        has_bit(graph.adj@[v], onward(graph, v, seen)[k] as int),
        room(onward(graph, v, seen)[k] as int, with_bit(seen, v)) < room(v, seen),
{
    let v2 = onward(graph, v, seen)[k] as int;
    lemma_set_bits_are_set(graph.adj@[v] & !seen, 128);
    lemma_and_not(graph.adj@[v], seen, v2 as u128);
    lemma_clear_bits_with(seen, v, 128);
    lemma_or_bit(seen, v as u128, v2 as u128);
    if !has_bit(seen, v) {
        lemma_some_clear(seen, v, 128);
    }
}

/// Where a bit is clear, at least one is.
proof fn lemma_some_clear(bits: u128, i: int, upto: int)
    requires
        0 <= i < upto <= 128,
        !has_bit(bits, i),
    ensures
        clear_bits(bits, upto) >= 1,
    decreases upto,
{
    if i < upto - 1 {
        lemma_some_clear(bits, i, upto - 1);
    }
}

/// The weight of the heaviest walk from `v` to the target of the graph that
/// keeps off the nodes in `seen` and off those that it has left, where the
/// walk up to `v` weighs `len`: each node weighs what the graph says, and
/// each edge one. Where no such walk leads to the target, the weight is 0.
///
/// A node is kept off from the moment the walk leaves it, so an edge from
/// a node to itself can be gone along once.
pub open spec fn heaviest(graph: Graph, v: int, len: int, seen: u128) -> int
    decreases room(v, seen), 129int,
    when 0 <= v < 128
    via heaviest_decreases
{
    if v == graph.target {
        len + graph.node_weights@[v]
    } else {
        heaviest_onward(graph, v, len, seen, onward(graph, v, seen).len() as int)
    }
}

/// The weight of the heaviest walk to the target that goes on from `v` to
/// one of the first `upto` nodes one edge away, or 0 where there is none.
pub open spec fn heaviest_onward(graph: Graph, v: int, len: int, seen: u128, upto: int) -> int
    decreases room(v, seen), upto,
    when 0 <= v < 128 && upto <= onward(graph, v, seen).len()
    via heaviest_onward_decreases
{
    if upto <= 0 {
        0
    } else {
        let there = heaviest(
            graph,
            onward(graph, v, seen)[upto - 1] as int,
            len + graph.node_weights@[v] + 1,
            with_bit(seen, v),
        );
        let others = heaviest_onward(graph, v, len, seen, upto - 1);
        if there > others {
            there
        } else {
            others
        }
    }
}

/// A node has at most 128 nodes one edge away.
#[via_fn]
proof fn heaviest_decreases(graph: Graph, v: int, len: int, seen: u128) {
    lemma_set_bits_are_set(graph.adj@[v] & !seen, 128);
}

/// Going on along an edge leaves less room.
#[via_fn]
proof fn heaviest_onward_decreases(graph: Graph, v: int, len: int, seen: u128, upto: int) {
    if upto > 0 {
        lemma_less_room(graph, v, seen, upto - 1);
    }
}

/// Whether the weights of the walks from `v` that `heaviest` looks at can
/// be added up in 16-bit numbers, where the walk up to `v` weighs `len`.
pub open spec fn adds_up(graph: Graph, v: int, len: int, seen: u128) -> bool
    decreases room(v, seen), 129int,
    when 0 <= v < 128
    via adds_up_decreases
{
    if v == graph.target {
        len + graph.node_weights@[v] <= u16::MAX
    } else {
        onward(graph, v, seen).len() == 0 || (len + graph.node_weights@[v] + 1 <= u16::MAX
            && adds_up_onward(graph, v, len, seen, onward(graph, v, seen).len() as int))
    }
}

/// Whether the weights of the walks that go on from `v` to one of the first
/// `upto` nodes one edge away can be added up in 16-bit numbers.
pub open spec fn adds_up_onward(graph: Graph, v: int, len: int, seen: u128, upto: int) -> bool
    decreases room(v, seen), upto,
    when 0 <= v < 128 && upto <= onward(graph, v, seen).len()
    via adds_up_onward_decreases
{
    upto <= 0 || (adds_up(
        graph,
        onward(graph, v, seen)[upto - 1] as int,
        len + graph.node_weights@[v] + 1,
        with_bit(seen, v),
    ) && adds_up_onward(graph, v, len, seen, upto - 1))
}

/// A node has at most 128 nodes one edge away.
#[via_fn]
proof fn adds_up_decreases(graph: Graph, v: int, len: int, seen: u128) {
    lemma_set_bits_are_set(graph.adj@[v] & !seen, 128);
}

/// Going on along an edge leaves less room.
#[via_fn]
proof fn adds_up_onward_decreases(graph: Graph, v: int, len: int, seen: u128, upto: int) {
    if upto > 0 {
        lemma_less_room(graph, v, seen, upto - 1);
    }
}

/// The weight of the heaviest walk from `v` to the target of the graph that
/// keeps off the nodes in `seen` and off those that it has left, found by
/// trying all of them. The walk up to `v` weighs `len`; each node weighs
/// what the graph says, and each edge one. Where no such walk leads to the
/// target, the weight is 0.
pub fn longest_path_brute_force(v: usize, len: u16, graph: &Graph, seen: u128) -> (longest: u16)
    requires
        v < MAX_SIZE,
        adds_up(*graph, v as int, len as int, seen),
    ensures
        longest == heaviest(*graph, v as int, len as int, seen),
    decreases room(v as int, seen),
{
    if v == graph.target {
        return len + graph.node_weights[v];
    }
    let next = graph.neighbors(v, !seen);
    let mut ans: u16 = 0;
    let mut k: usize = 0;
    while k < next.len()
        invariant
            v < MAX_SIZE,
            v != graph.target,
            next@ == onward(*graph, v as int, seen),
            k <= next@.len(),
            next@.len() == 0 || (len + graph.node_weights@[v as int] + 1 <= u16::MAX
                && adds_up_onward(*graph, v as int, len as int, seen, next@.len() as int)),
            ans == heaviest_onward(*graph, v as int, len as int, seen, k as int),
        decreases next@.len() - k,
    {
        let v2 = next[k];
        proof {
            lemma_less_room(*graph, v as int, seen, k as int);
            lemma_adds_up_each(*graph, v as int, len as int, seen, next@.len() as int, k as int);
        }
        let there = longest_path_brute_force(
            v2,
            len + graph.node_weights[v] + 1,
            graph,
            seen | (1u128 << v),
        );
        if there > ans {
            ans = there;
        }
        k += 1;
    }
    ans
}

/// Where the weights of the walks by the first `upto` nodes can be added
/// up, so can those of the walks by each of them.
proof fn lemma_adds_up_each(graph: Graph, v: int, len: int, seen: u128, upto: int, k: int)
    requires
        0 <= v < 128,
        0 <= k < upto <= onward(graph, v, seen).len(),
        adds_up_onward(graph, v, len, seen, upto),
    ensures
        adds_up(
            graph,
            onward(graph, v, seen)[k] as int,
            len + graph.node_weights@[v] + 1,
            with_bit(seen, v),
        ),
    decreases upto,
{
    lemma_less_room(graph, v, seen, upto - 1);
    assert(adds_up_onward(graph, v, len, seen, upto) == (upto <= 0 || (adds_up(
        graph,
        onward(graph, v, seen)[upto - 1] as int,
        len + graph.node_weights@[v] + 1,
        with_bit(seen, v),
    ) && adds_up_onward(graph, v, len, seen, upto - 1))));
    if k < upto - 1 {
        lemma_adds_up_each(graph, v, len, seen, upto - 1, k);
    }
}

/// Every edge leads to a node of lower rank.
pub open spec fn ranks(graph: Graph, rank: Seq<nat>) -> bool {
    &&& rank.len() == 128
    &&& forall|from: int, to: int|
        0 <= from < 128 && #[trigger] has_bit(graph.adj@[from], to) ==> rank[to] < rank[from]
}

/// The graph has no walk that comes back to where it began.
pub open spec fn is_acyclic(graph: Graph) -> bool {
    exists|rank: Seq<nat>| #[trigger] ranks(graph, rank)
}

/// A rank for each node of a graph without cycles, lower at the end of each
/// edge than at its start.
pub open spec fn rank_of(graph: Graph, v: int) -> nat {
    (choose|rank: Seq<nat>| #[trigger] ranks(graph, rank))[v]
}

/// The nodes one edge away from `v`, in ascending order.
pub open spec fn all_onward(graph: Graph, v: int) -> Seq<usize> {
    set_bits(graph.adj@[v], MAX_SIZE as int)
}

/// The value that stands for "not known yet" in a table of weights.
pub const UNKNOWN: u16 = u16::MAX;

/// The weight of the heaviest walk from `v` in a graph without cycles, as
/// far as `known` does not hold it already: nothing for a node without an
/// edge, and else the most that a walk from a node one edge away weighs,
/// with one for the edge and the weight of `v` on top.
pub open spec fn deepest(graph: Graph, known: Seq<u16>, v: int) -> int
    decreases rank_of(graph, v), 129int,
    when is_acyclic(graph) && 0 <= v < 128
    via deepest_decreases
{
    if v < known.len() && known[v] != UNKNOWN {
        known[v] as int
    } else {
        deepest_onward(graph, known, v, all_onward(graph, v).len() as int)
    }
}

/// The weight of the heaviest walk from `v` that goes on to one of the
/// first `upto` nodes one edge away, or 0 where there is none.
pub open spec fn deepest_onward(graph: Graph, known: Seq<u16>, v: int, upto: int) -> int
    decreases rank_of(graph, v), upto,
    when is_acyclic(graph) && 0 <= v < 128 && upto <= all_onward(graph, v).len()
    via deepest_onward_decreases
{
    if upto <= 0 {
        0
    } else {
        let there = deepest(graph, known, all_onward(graph, v)[upto - 1] as int) + 1
            + graph.node_weights@[v];
        let others = deepest_onward(graph, known, v, upto - 1);
        if there > others {
            there
        } else {
            others
        }
    }
}

/// A node has at most 128 nodes one edge away.
#[via_fn]
proof fn deepest_decreases(graph: Graph, known: Seq<u16>, v: int) {
    lemma_set_bits_are_set(graph.adj@[v], 128);
}

/// An edge leads to a node of lower rank.
#[via_fn]
proof fn deepest_onward_decreases(graph: Graph, known: Seq<u16>, v: int, upto: int) {
    if upto > 0 {
        lemma_lower_rank(graph, v, upto - 1);
    }
}

/// An edge leads to a node of lower rank.
proof fn lemma_lower_rank(graph: Graph, v: int, k: int)
    requires
        is_acyclic(graph),
        0 <= v < 128,
        0 <= k < all_onward(graph, v).len(),
    ensures
        all_onward(graph, v)[k] < 128,
        has_bit(graph.adj@[v], all_onward(graph, v)[k] as int),
        rank_of(graph, all_onward(graph, v)[k] as int) < rank_of(graph, v),
{
    lemma_set_bits_are_set(graph.adj@[v], 128);
    let rank = choose|rank: Seq<nat>| #[trigger] ranks(graph, rank);
    assert(ranks(graph, rank));
    assert(has_bit(graph.adj@[v], all_onward(graph, v)[k] as int));
}

/// Whether the weights that `deepest` adds up from `v` are 16-bit numbers.
pub open spec fn sums_fit(graph: Graph, known: Seq<u16>, v: int) -> bool
    decreases rank_of(graph, v), 129int,
    when is_acyclic(graph) && 0 <= v < 128
    via sums_fit_decreases
{
    (v < known.len() && known[v] != UNKNOWN) || sums_fit_onward(
        graph,
        known,
        v,
        all_onward(graph, v).len() as int,
    )
}

/// Whether the weights that `deepest` adds up by the first `upto` nodes one
/// edge away from `v` are 16-bit numbers.
pub open spec fn sums_fit_onward(graph: Graph, known: Seq<u16>, v: int, upto: int) -> bool
    decreases rank_of(graph, v), upto,
    when is_acyclic(graph) && 0 <= v < 128 && upto <= all_onward(graph, v).len()
    via sums_fit_onward_decreases
{
    upto <= 0 || (sums_fit(graph, known, all_onward(graph, v)[upto - 1] as int) && deepest(
        graph,
        known,
        all_onward(graph, v)[upto - 1] as int,
    ) + 1 + graph.node_weights@[v] <= u16::MAX && sums_fit_onward(graph, known, v, upto - 1))
}

/// A node has at most 128 nodes one edge away.
#[via_fn]
proof fn sums_fit_decreases(graph: Graph, known: Seq<u16>, v: int) {
    lemma_set_bits_are_set(graph.adj@[v], 128);
}

/// An edge leads to a node of lower rank.
#[via_fn]
proof fn sums_fit_onward_decreases(graph: Graph, known: Seq<u16>, v: int, upto: int) {
    if upto > 0 {
        lemma_lower_rank(graph, v, upto - 1);
    }
}

/// `more` holds what `known` holds, and beside it only weights that
/// `deepest` gives.
pub open spec fn fills_in(graph: Graph, known: Seq<u16>, more: Seq<u16>) -> bool {
    &&& more.len() == known.len()
    &&& forall|u: int|
        0 <= u < known.len() ==> #[trigger] more[u] == known[u] || (known[u] == UNKNOWN && u < 128
            && more[u] == deepest(graph, known, u))
}

/// Weights that are filled in change nothing: neither the weights that
/// `deepest` gives nor whether they can be added up.
proof fn lemma_filled_in(graph: Graph, known: Seq<u16>, more: Seq<u16>, v: int, upto: int)
    requires
        is_acyclic(graph),
        fills_in(graph, known, more),
        0 <= v < 128,
        0 <= upto <= all_onward(graph, v).len(),
    ensures
        deepest_onward(graph, more, v, upto) == deepest_onward(graph, known, v, upto),
        sums_fit_onward(graph, known, v, upto) ==> sums_fit_onward(graph, more, v, upto),
        upto == all_onward(graph, v).len() ==> deepest(graph, more, v) == deepest(
            graph,
            known,
            v,
        ) && (sums_fit(graph, known, v) ==> sums_fit(graph, more, v)),
    decreases rank_of(graph, v), upto,
{
    lemma_set_bits_are_set(graph.adj@[v], 128);
    if upto > 0 {
        let next = all_onward(graph, v)[upto - 1] as int;
        lemma_lower_rank(graph, v, upto - 1);
        lemma_set_bits_are_set(graph.adj@[next], 128);
        lemma_filled_in(graph, known, more, next, all_onward(graph, next).len() as int);
        lemma_filled_in(graph, known, more, v, upto - 1);
    }
    if upto == all_onward(graph, v).len() {
        if v < known.len() && known[v] != UNKNOWN {
            assert(more[v] == known[v]);
        } else if v < known.len() && more[v] != UNKNOWN {
            assert(more[v] == deepest(graph, known, v));
        }
    }
}

/// Where the weights by the first `upto` nodes can be added up, so can
/// those by each of them.
proof fn lemma_sums_fit_each(graph: Graph, known: Seq<u16>, v: int, upto: int, k: int)
    requires
        is_acyclic(graph),
        0 <= v < 128,
        0 <= k < upto <= all_onward(graph, v).len(),
        sums_fit_onward(graph, known, v, upto),
    ensures
        all_onward(graph, v)[k] < 128,
        sums_fit(graph, known, all_onward(graph, v)[k] as int),
        deepest(graph, known, all_onward(graph, v)[k] as int) + 1 + graph.node_weights@[v]
            <= u16::MAX,
    decreases upto,
{
    lemma_lower_rank(graph, v, upto - 1);
    lemma_lower_rank(graph, v, k);
    assert(sums_fit_onward(graph, known, v, upto) == (upto <= 0 || (sums_fit(
        graph,
        known,
        all_onward(graph, v)[upto - 1] as int,
    ) && deepest(graph, known, all_onward(graph, v)[upto - 1] as int) + 1
        + graph.node_weights@[v] <= u16::MAX && sums_fit_onward(graph, known, v, upto - 1))));
    if k < upto - 1 {
        lemma_sums_fit_each(graph, known, v, upto - 1, k);
    }
}

/// Keeping all the bits keeps the number.
proof fn lemma_all_bits(bits: u128)
    by (bit_vector)
    ensures
        bits & 0xffff_ffff_ffff_ffff_ffff_ffff_ffff_ffffu128 == bits,
{
}

/// What is filled in after weights were filled in is filled in.
proof fn lemma_fills_in_further(graph: Graph, known: Seq<u16>, mid: Seq<u16>, more: Seq<u16>)
    requires
        is_acyclic(graph),
        fills_in(graph, known, mid),
        fills_in(graph, mid, more),
    ensures
        fills_in(graph, known, more),
{
    assert forall|u: int| 0 <= u < known.len() implies #[trigger] more[u] == known[u] || (known[u]
        == UNKNOWN && u < 128 && more[u] == deepest(graph, known, u)) by {
        if more[u] != mid[u] {
            lemma_set_bits_are_set(graph.adj@[u], 128);
            lemma_filled_in(graph, known, mid, u, all_onward(graph, u).len() as int);
        }
    }
}

/// The weight of the heaviest walk from `v` through a graph without
/// cycles: nothing for a node without an edge, and else the most that a
/// walk from a node one edge away weighs, with one for the edge and the
/// weight of `v` on top.
///
/// `longest_path` holds the weights that are known already, and
/// `u16::MAX` for every node whose weight is not known. A weight that it
/// holds is taken as it is. The weights that are worked out on the way are
/// filled in.
pub fn dag_dfs(v: usize, graph: &Graph, longest_path: &mut [u16]) -> (longest: u16)
    requires
        is_acyclic(*graph),
        v < old(longest_path)@.len() <= MAX_SIZE,
        forall|from: int, to: int|
            0 <= from < old(longest_path)@.len() && #[trigger] has_bit(graph.adj@[from], to)
                ==> to < old(longest_path)@.len(),
        sums_fit(*graph, old(longest_path)@, v as int),
    ensures
        longest == deepest(*graph, old(longest_path)@, v as int),
        final(longest_path)@[v as int] == longest,
        fills_in(*graph, old(longest_path)@, final(longest_path)@),
    decreases rank_of(*graph, v as int),
{
    let ghost known = longest_path@;
    if longest_path[v] != UNKNOWN {
        return longest_path[v];
    }
    let next = graph.neighbors(v, u128::MAX);
    proof {
        lemma_all_bits(graph.adj@[v as int]);
        lemma_set_bits_are_set(graph.adj@[v as int], 128);
    }
    let mut ans: u16 = 0;
    let mut k: usize = 0;
    while k < next.len()
        invariant
            is_acyclic(*graph),
            v < known.len() <= MAX_SIZE,
            known == old(longest_path)@,
            known[v as int] == UNKNOWN,
            forall|from: int, to: int|
                0 <= from < known.len() && #[trigger] has_bit(graph.adj@[from], to) ==> to
                    < known.len(),
            sums_fit_onward(*graph, known, v as int, next@.len() as int),
            next@ == all_onward(*graph, v as int),
            k <= next@.len(),
            fills_in(*graph, known, longest_path@),
            ans == deepest_onward(*graph, known, v as int, k as int),
        decreases next@.len() - k,
    {
        let v2 = next[k];
        let ghost before = longest_path@;
        proof {
            lemma_lower_rank(*graph, v as int, k as int);
            lemma_sums_fit_each(*graph, known, v as int, next@.len() as int, k as int);
            lemma_set_bits_are_set(graph.adj@[v2 as int], 128);
            lemma_filled_in(
                *graph,
                known,
                before,
                v2 as int,
                all_onward(*graph, v2 as int).len() as int,
            );
        }
        let there = dag_dfs(v2, graph, longest_path) + 1 + graph.node_weights[v];
        proof {
            lemma_fills_in_further(*graph, known, before, longest_path@);
        }
        if there > ans {
            ans = there;
        }
        k += 1;
    }
    longest_path[v] = ans;
    ans
}

} // verus!
