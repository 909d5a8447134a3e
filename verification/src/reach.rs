use vstd::prelude::*;

verus! {

/// A walk goes from node to node along edges.
pub open spec fn is_walk<T>(edge: spec_fn(T, T) -> bool, walk: Seq<T>) -> bool {
    &&& walk.len() >= 1
    &&& forall|i: int| 0 <= i < walk.len() - 1 ==> edge(#[trigger] walk[i], walk[i + 1])
}

/// Some walk leads from `from` to `to`.
pub open spec fn reachable<T>(edge: spec_fn(T, T) -> bool, from: T, to: T) -> bool {
    exists|walk: Seq<T>| #[trigger] is_walk(edge, walk) && walk[0] == from && walk.last() == to
}

/// Every node can be reached from itself.
pub proof fn lemma_reachable_self<T>(edge: spec_fn(T, T) -> bool, node: T)
    ensures
        reachable(edge, node, node),
{
    let walk = seq![node];
    assert(is_walk(edge, walk));
    assert(walk[0] == node && walk.last() == node);
}

/// What can be reached can be left along an edge.
pub proof fn lemma_reachable_step<T>(edge: spec_fn(T, T) -> bool, from: T, mid: T, to: T)
    requires
        reachable(edge, from, mid),
        edge(mid, to),
    ensures
        reachable(edge, from, to),
{
    let walk = choose|walk: Seq<T>| #[trigger]
        is_walk(edge, walk) && walk[0] == from && walk.last() == mid;
    let longer = walk.push(to);
    assert forall|i: int| 0 <= i < longer.len() - 1 implies edge(#[trigger] longer[i], longer[i + 1]) by {
        if i < walk.len() - 1 {
            assert(edge(walk[i], walk[i + 1]));
        }
    }
    assert(is_walk(edge, longer));
    assert(longer[0] == from && longer.last() == to);
}

/// No edge leads out of the set.
pub open spec fn closed<T>(edge: spec_fn(T, T) -> bool, nodes: Set<T>) -> bool {
    forall|from: T, to: T| nodes.contains(from) && #[trigger] edge(from, to) ==> nodes.contains(to)
}

/// A set that no edge leads out of holds everything that can be reached
/// from any of its nodes.
pub proof fn lemma_closed_holds_reachable<T>(
    edge: spec_fn(T, T) -> bool,
    nodes: Set<T>,
    from: T,
    to: T,
)
    requires
        nodes.contains(from),
        closed(edge, nodes),
        reachable(edge, from, to),
    ensures
        nodes.contains(to),
{
    let walk = choose|walk: Seq<T>| #[trigger]
        is_walk(edge, walk) && walk[0] == from && walk.last() == to;
    lemma_walk_stays(edge, nodes, walk, walk.len() - 1);
}

/// A walk that starts in a set that no edge leads out of stays in it.
proof fn lemma_walk_stays<T>(edge: spec_fn(T, T) -> bool, nodes: Set<T>, walk: Seq<T>, upto: int)
    requires
        is_walk(edge, walk),
        nodes.contains(walk[0]),
        closed(edge, nodes),
        0 <= upto < walk.len(),
    ensures
        nodes.contains(walk[upto]),
    decreases upto,
{
    if upto > 0 {
        lemma_walk_stays(edge, nodes, walk, upto - 1);
        assert(edge(walk[upto - 1], walk[upto - 1 + 1]));
    }
}

/// The number of marks that are not set.
pub open spec fn unmarked(marks: Seq<bool>) -> nat
    decreases marks.len(),
{
    if marks.len() == 0 {
        0
    } else {
        unmarked(marks.drop_last()) + if marks.last() {
            0nat
        } else {
            1nat
        }
    }
}

/// Setting a mark leaves one fewer unset.
pub proof fn lemma_unmarked_update(marks: Seq<bool>, at: int)
    requires
        0 <= at < marks.len(),
        !marks[at],
    ensures
        unmarked(marks.update(at, true)) + 1 == unmarked(marks),
    decreases marks.len(),
{
    let updated = marks.update(at, true);
    if at == marks.len() - 1 {
        assert(updated.drop_last() =~= marks.drop_last());
    } else {
        assert(updated.drop_last() =~= marks.drop_last().update(at, true));
        lemma_unmarked_update(marks.drop_last(), at);
    }
}

/// Some walk of `steps` edges leads from `from` to `to`.
pub open spec fn within<T>(edge: spec_fn(T, T) -> bool, from: T, to: T, steps: int) -> bool {
    exists|walk: Seq<T>| #[trigger]
        is_walk(edge, walk) && walk[0] == from && walk.last() == to && walk.len() == steps + 1
}

/// `steps` is the least number of edges of a walk from `from` to `to`.
pub open spec fn is_distance<T>(edge: spec_fn(T, T) -> bool, from: T, to: T, steps: int) -> bool {
    &&& within(edge, from, to, steps)
    &&& forall|fewer: int| 0 <= fewer < steps ==> !within(edge, from, to, fewer)
}

/// No edge needs to be gone along to stay.
pub proof fn lemma_within_self<T>(edge: spec_fn(T, T) -> bool, node: T)
    ensures
        within(edge, node, node, 0),
{
    let walk = seq![node];
    assert(is_walk(edge, walk));
    assert(walk[0] == node && walk.last() == node && walk.len() == 1);
}

/// What is within some number of edges is within one more at the end of
/// an edge.
pub proof fn lemma_within_step<T>(
    edge: spec_fn(T, T) -> bool,
    from: T,
    mid: T,
    to: T,
    steps: int,
)
    requires
        within(edge, from, mid, steps),
        edge(mid, to),
    ensures
        within(edge, from, to, steps + 1),
{
    let walk = choose|walk: Seq<T>| #[trigger]
        is_walk(edge, walk) && walk[0] == from && walk.last() == mid && walk.len() == steps + 1;
    let longer = walk.push(to);
    assert forall|i: int| 0 <= i < longer.len() - 1 implies edge(#[trigger] longer[i], longer[i + 1]) by {
        if i < walk.len() - 1 {
            assert(edge(walk[i], walk[i + 1]));
        }
    }
    assert(is_walk(edge, longer));
    assert(longer[0] == from && longer.last() == to && longer.len() == steps + 2);
}

} // verus!
